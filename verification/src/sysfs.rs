//! The Apple SMC (`applesmc`) and the CPU package sensors (`coretemp`), as the kernel exposes
//! them in files.
//!
//! Sensors are found by label, such as `TPCD` or `Package id 0`, and not by the number of the
//! file they happen to live in: the numbers are assigned in probe order and are not stable.
//!
//! Nothing here reads or writes a file. The functions take what was listed and read, and give
//! back what it means or what is to be written.
use crate::accuracy::{lemma_rounded_error, lemma_rounded_finite};
use crate::binary64::Binary64;
use crate::datum::{lemma_whole_order, magnitude, unit, Datum};
use crate::order::lemma_settled;
use crate::rounding::{rounded, HALF_SPAN, SPAN};
use crate::sorting::{in_order, is_weak_order, lemma_inserted_at, lemma_sorted, sorted};
use crate::text::{
    before, between, decimal, integer_value, is_digit, is_white, joined3,
    law_a_number_is_digits_behind_a_sign, law_the_middle_is_what_is_left,
    law_white_space_around_a_text_is_trimmed, lemma_before_irreflexive, lemma_before_total,
    lemma_before_transitive, lemma_decimal_reads_back, middle, parse_i64, precedes, same,
    strip_prefix, texts, trim, trimmed, unsigned_value,
};
use vstd::arithmetic::power2::{
    lemma2_to64, lemma_pow2_adds, lemma_pow2_pos, lemma_pow2_strictly_increases, pow2,
};
use vstd::prelude::*;

verus! {

/// Which driver a sensor is read from.
#[derive(Debug, Clone, Copy, PartialEq, Eq, PartialOrd, Ord, Structural)]
pub enum Source {
    /// The SMC: chassis, proximity, battery and memory sensors.
    Applesmc,
    /// The CPU's own on-die sensors.
    Coretemp,
}

impl Source {
    /// The name of the driver.
    pub open spec fn name(self) -> Seq<char> {
        match self {
            Source::Applesmc => "applesmc"@,
            Source::Coretemp => "coretemp"@,
        }
    }

    /// The name of the driver.
    pub fn as_str(self) -> (r: &'static str)
        ensures
            r@ == self.name(),
    {
        match self {
            Source::Applesmc => "applesmc",
            Source::Coretemp => "coretemp",
        }
    }
}

/// Why a file did not give a number.
#[derive(Debug)]
pub enum ReadError {
    /// The file could not be read, and why.
    Unreadable(String),
    /// The file holds this, which is no number.
    NotANumber(String),
    /// The file holds this number, which is no speed.
    OutOfRange(i64),
}

impl Clone for ReadError {
    fn clone(&self) -> (r: ReadError)
        ensures
            r == *self,
    {
        match self {
            ReadError::Unreadable(e) => ReadError::Unreadable(e.clone()),
            ReadError::NotANumber(s) => ReadError::NotANumber(s.clone()),
            ReadError::OutOfRange(n) => ReadError::OutOfRange(*n),
        }
    }
}

/// The number in a file, given its contents or why they could not be read.
pub open spec fn number_in(contents: Result<String, String>) -> Result<i64, ReadError> {
    match contents {
        Err(e) => Err(ReadError::Unreadable(e)),
        Ok(raw) => match integer_value(trimmed(raw@)) {
            Some(n) => if i64::MIN <= n <= i64::MAX {
                Ok(n as i64)
            } else {
                Err(ReadError::NotANumber(raw))
            },
            None => Err(ReadError::NotANumber(raw)),
        },
    }
}

/// The speed in a file.
pub open spec fn speed_in(contents: Result<String, String>) -> Result<u32, ReadError> {
    match number_in(contents) {
        Err(e) => Err(e),
        Ok(n) => if 0 <= n <= u32::MAX {
            Ok(n as u32)
        } else {
            Err(ReadError::OutOfRange(n))
        },
    }
}

/// The number in a file, given its contents or why they could not be read.
pub fn read_i64(contents: &Result<String, String>) -> (r: Result<i64, ReadError>)
    ensures
        r == number_in(*contents),
{
    match contents {
        Err(e) => Err(ReadError::Unreadable(e.clone())),
        Ok(raw) => match parse_i64(trim(raw.as_str())) {
            Some(n) => Ok(n),
            None => Err(ReadError::NotANumber(raw.clone())),
        },
    }
}

/// The speed in a file.
pub fn read_u32(contents: &Result<String, String>) -> (r: Result<u32, ReadError>)
    ensures
        r == speed_in(*contents),
{
    match read_i64(contents) {
        Err(e) => Err(e),
        Ok(n) => if 0 <= n && n <= 0xffff_ffff {
            Ok(n as u32)
        } else {
            Err(ReadError::OutOfRange(n))
        },
    }
}

/// The temperature in a file, in degrees celsius; the kernel writes millidegrees.
///
/// A sensor that is not populated on a board may be reported as 0, so the caller is expected
/// to check the range rather than trust everything that parses.
pub fn read_temp(contents: &Result<String, String>) -> (r: Result<Binary64, ReadError>)
    ensures
        match number_in(*contents) {
            Ok(n) => r is Ok && r->Ok_0@ == Datum::nearest(n as int).over(Datum::whole(1000)),
            Err(e) => r == Err::<Binary64, ReadError>(e),
        },
{
    match read_i64(contents) {
        Err(e) => Err(e),
        Ok(n) => Ok(Binary64::from_i64(n).over(Binary64::from_u32(1000))),
    }
}

/// A file `name` in a directory.
pub open spec fn child(dir: Seq<char>, name: Seq<char>) -> Seq<char> {
    dir + "/"@ + name
}

fn child_of(dir: &str, name: &str) -> (r: String)
    ensures
        r@ == child(dir@, name@),
{
    dir.to_owned().concat("/").concat(name)
}

/// The order of texts.
pub open spec fn text_order() -> spec_fn(Seq<char>, Seq<char>) -> bool {
    |a: Seq<char>, b: Seq<char>| before(a, b)
}

proof fn lemma_text_order()
    ensures
        is_weak_order(text_order()),
{
    let lt = text_order();
    assert forall|a: Seq<char>, b: Seq<char>| #[trigger] lt(a, b) implies !lt(b, a) by {
        if before(b, a) {
            lemma_before_transitive(a, b, a);
            lemma_before_irreflexive(a);
        }
    }
    assert forall|a: Seq<char>, b: Seq<char>, c: Seq<char>|
        !#[trigger] lt(a, b) && !#[trigger] lt(b, c) implies !lt(a, c) by {
        lemma_before_total(a, b);
        lemma_before_total(b, c);
        if before(a, c) {
            if before(b, a) {
                lemma_before_transitive(b, a, c);
            }
        }
    }
}

/// Where the platform devices live.
pub open spec fn platform() -> Seq<char> {
    "/sys/devices/platform"@
}

/// That a platform device is of a driver: it has its name, or that and a dot in front.
pub open spec fn is_device(name: Seq<char>, prefix: Seq<char>) -> bool {
    name == prefix || (prefix + "."@).is_prefix_of(name)
}

/// The first in order of the platform devices of a driver.
pub open spec fn first_device(names: Seq<Seq<char>>, prefix: Seq<char>) -> Option<Seq<char>>
    decreases names.len(),
{
    if names.len() == 0 {
        None
    } else {
        let best = first_device(names.drop_last(), prefix);
        let name = names.last();
        if is_device(name, prefix) && (best matches Some(b) ==> before(name, b)) {
            Some(name)
        } else {
            best
        }
    }
}

/// The directory of a driver, given the names of all platform devices.
pub fn find_platform_device(prefix: &str, names: &Vec<String>) -> (r: Option<String>)
    ensures
        match first_device(texts(names@), prefix@) {
            Some(name) => r is Some && r->0@ == child(platform(), name),
            None => r is None,
        },
{
    let dotted: String = prefix.to_owned().concat(".");
    let mut best: Option<usize> = None;
    let mut i: usize = 0;
    let ghost all = texts(names@);
    assert(all.take(0) =~= Seq::<Seq<char>>::empty());
    while i < names.len()
        invariant
            i <= names@.len(),
            all == texts(names@),
            dotted@ == prefix@ + "."@,
            best matches Some(b) ==> b < i,
            first_device(all.take(i as int), prefix@) == (match best {
                Some(b) => Some(names@[b as int]@),
                None => None,
            }),
        decreases names@.len() - i,
    {
        let name: &str = names[i].as_str();
        assert(all.take(i + 1).drop_last() =~= all.take(i as int));
        assert(all.take(i + 1).last() == name@);
        if same(name, prefix) || strip_prefix(name, dotted.as_str()).is_some() {
            let earlier: bool = match best {
                Some(b) => precedes(name, names[b].as_str()),
                None => true,
            };
            if earlier {
                best = Some(i);
            }
        }
        i += 1;
    }
    assert(all.take(i as int) =~= all);
    match best {
        Some(b) => Some(child_of("/sys/devices/platform", names[b].as_str())),
        None => None,
    }
}

/// The directory of a driver is that of a device of the driver, and no other comes before it;
/// and there is one wherever there is such a device.
pub proof fn law_the_first_device_is_taken(names: Seq<Seq<char>>, prefix: Seq<char>)
    ensures
        match first_device(names, prefix) {
            Some(name) => {
                &&& names.contains(name)
                &&& is_device(name, prefix)
                &&& forall|i: int|
                    0 <= i < names.len() && is_device(#[trigger] names[i], prefix) ==> !before(
                        names[i],
                        name,
                    )
            },
            None => forall|i: int|
                0 <= i < names.len() ==> !is_device(#[trigger] names[i], prefix),
        },
    decreases names.len(),
{
    if names.len() > 0 {
        let rest = names.drop_last();
        let last = names.last();
        law_the_first_device_is_taken(rest, prefix);
        let best = first_device(rest, prefix);
        lemma_before_irreflexive(last);
        match first_device(names, prefix) {
            Some(name) => {
                if name == last {
                    assert(names[names.len() - 1] == name);
                }
                if let Some(b) = best {
                    let k = choose|k: int| 0 <= k < rest.len() && rest[k] == b;
                    assert(names[k] == b);
                }
                assert forall|i: int|
                    0 <= i < names.len() && is_device(#[trigger] names[i], prefix) implies !before(
                    names[i],
                    name,
                ) by {
                    if i < rest.len() {
                        assert(rest[i] == names[i]);
                        if let Some(b) = best {
                            if name != b && before(names[i], name) {
                                lemma_before_transitive(names[i], name, b);
                            }
                        }
                    }
                }
            },
            None => {
                assert forall|i: int| 0 <= i < names.len() implies !is_device(
                    #[trigger] names[i],
                    prefix,
                ) by {
                    if i < rest.len() {
                        assert(rest[i] == names[i]);
                    }
                }
            },
        }
    }
}

/// The texts of a list in order.
fn sort_texts(list: &Vec<String>) -> (r: Vec<String>)
    ensures
        texts(r@) == sorted(texts(list@), text_order()),
{
    let mut out: Vec<String> = Vec::new();
    let mut i: usize = 0;
    let ghost all = texts(list@);
    let ghost lt = text_order();
    assert(all.take(0) =~= Seq::<Seq<char>>::empty());
    assert(texts(out@) =~= sorted(all.take(0), lt));
    while i < list.len()
        invariant
            i <= list@.len(),
            all == texts(list@),
            lt == text_order(),
            texts(out@) == sorted(all.take(i as int), lt),
        decreases list@.len() - i,
    {
        let x: &str = list[i].as_str();
        let mut p: usize = out.len();
        while p > 0 && precedes(x, out[p - 1].as_str())
            invariant
                p <= out@.len(),
                lt == text_order(),
                forall|k: int| p <= k < out@.len() ==> lt(x@, #[trigger] texts(out@)[k]),
            decreases p,
        {
            assert(texts(out@)[p - 1] == out@[p - 1]@);
            p -= 1;
        }
        proof {
            assert(p > 0 ==> texts(out@)[p - 1] == out@[p - 1]@);
            lemma_inserted_at(texts(out@), x@, p as int, lt);
            assert(all.take(i + 1).drop_last() =~= all.take(i as int));
            assert(all.take(i + 1).last() == x@);
        }
        let ghost was = out@;
        out.insert(p, list[i].clone());
        assert(texts(out@) =~= texts(was).insert(p as int, x@));
        i += 1;
    }
    assert(all.take(i as int) =~= all);
    out
}

/// The directories below `dir` that may hold sensors, in order, given the names in its `hwmon`
/// directory, if there is one.
pub fn hwmon_children(dir: &str, names: &Option<Vec<String>>) -> (r: Vec<String>)
    ensures
        texts(r@) == (match *names {
            Some(names) => sorted(
                texts(names@).map_values(
                    |name: Seq<char>| child(child(dir@, "hwmon"@), name),
                ),
                text_order(),
            ),
            None => Seq::empty(),
        }),
{
    match names {
        None => {
            let r: Vec<String> = Vec::new();
            assert(texts(r@) =~= Seq::empty());
            r
        },
        Some(names) => {
            let hwmon: String = child_of(dir, "hwmon");
            let mut paths: Vec<String> = Vec::new();
            let mut i: usize = 0;
            while i < names.len()
                invariant
                    i <= names@.len(),
                    paths@.len() == i,
                    hwmon@ == child(dir@, "hwmon"@),
                    forall|j: int|
                        0 <= j < i ==> (#[trigger] paths@[j])@ == child(hwmon@, names@[j]@),
                decreases names@.len() - i,
            {
                paths.push(child_of(hwmon.as_str(), names[i].as_str()));
                i += 1;
            }
            assert(texts(paths@) =~= texts(names@).map_values(
                |name: Seq<char>| child(child(dir@, "hwmon"@), name),
            ));
            sort_texts(&paths)
        },
    }
}

/// The directories that are looked through for the sensors of a driver, in order: its own, and
/// then those below that may hold some. One driver puts its sensors in the one place and one in
/// the other, so both are looked through.
pub fn sensor_dirs(dir: &str, names: &Option<Vec<String>>) -> (r: Vec<String>)
    ensures
        texts(r@) == seq![dir@] + (match *names {
            Some(n) => sorted(
                texts(n@).map_values(|x: Seq<char>| child(child(dir@, "hwmon"@), x)),
                text_order(),
            ),
            None => Seq::empty(),
        }),
{
    let below: Vec<String> = hwmon_children(dir, names);
    let mut dirs: Vec<String> = Vec::new();
    dirs.push(dir.to_owned());
    let mut i: usize = 0;
    while i < below.len()
        invariant
            i <= below@.len(),
            dirs@.len() == i + 1,
            dirs@[0]@ == dir@,
            forall|j: int| 0 <= j < i ==> #[trigger] dirs@[j + 1] == below@[j],
        decreases below@.len() - i,
    {
        dirs.push(below[i].clone());
        i += 1;
    }
    assert forall|j: int| 1 <= j < dirs@.len() implies #[trigger] dirs@[j] == below@[j - 1] by {
        assert(dirs@[(j - 1) + 1] == below@[j - 1]);
    }
    assert(texts(dirs@) =~= seq![dir@] + texts(below@));
    dirs
}

/// The directories are looked through in order, and none is left out.
pub proof fn law_the_directories_are_in_order(paths: Seq<Seq<char>>)
    ensures
        in_order(sorted(paths, text_order()), text_order()),
        sorted(paths, text_order()).to_multiset() == paths.to_multiset(),
{
    lemma_text_order();
    lemma_sorted(paths, text_order());
}

/// One file of a directory of sensors: its name, whether the `temp_input` file that goes with
/// it exists, and its text where it could be read.
#[derive(Debug)]
pub struct Entry {
    pub name: String,
    pub input_exists: bool,
    pub text: Option<String>,
}

/// The files of a directory of sensors, in the order they were listed.
#[derive(Debug)]
pub struct Listing {
    pub dir: String,
    pub entries: Vec<Entry>,
}

/// The index in the name of a label file.
pub open spec fn label_index(name: Seq<char>) -> Option<Seq<char>> {
    middle(name, "temp"@, "_label"@)
}

/// The name of the file that holds the temperature with this index.
pub open spec fn input_name(index: Seq<char>) -> Seq<char> {
    "temp"@ + index + "_input"@
}

/// The name of the file that holds the temperature which a label file labels.
pub fn label_input(name: &str) -> (r: Option<String>)
    ensures
        match label_index(name@) {
            Some(index) => r is Some && r->0@ == input_name(index),
            None => r is None,
        },
{
    match between(name, "temp", "_label") {
        Some(index) => Some(joined3("temp", index, "_input")),
        None => None,
    }
}

/// A table of labels once a file of `dir` has been taken in.
pub open spec fn with_entry(
    table: Map<Seq<char>, Seq<char>>,
    dir: Seq<char>,
    e: Entry,
) -> Map<Seq<char>, Seq<char>> {
    match (label_index(e.name@), e.text) {
        (Some(index), Some(text)) => if e.input_exists && trimmed(text@).len() > 0 {
            table.insert(trimmed(text@), child(dir, input_name(index)))
        } else {
            table
        },
        _ => table,
    }
}

/// A table of labels once the files of `dir` have been taken in.
pub open spec fn with_entries(
    table: Map<Seq<char>, Seq<char>>,
    dir: Seq<char>,
    entries: Seq<Entry>,
) -> Map<Seq<char>, Seq<char>>
    decreases entries.len(),
{
    if entries.len() == 0 {
        table
    } else {
        with_entry(with_entries(table, dir, entries.drop_last()), dir, entries.last())
    }
}

/// The table of the labels in a list of directories, and where each is read.
pub open spec fn labelled(listings: Seq<Listing>) -> Map<Seq<char>, Seq<char>>
    decreases listings.len(),
{
    if listings.len() == 0 {
        Map::empty()
    } else {
        let last = listings.last();
        with_entries(labelled(listings.drop_last()), last.dir@, last.entries@)
    }
}

/// That a file of `dir` labels the sensor at `path`.
pub open spec fn gives(e: Entry, dir: Seq<char>, label: Seq<char>, path: Seq<char>) -> bool {
    &&& label_index(e.name@) is Some
    &&& e.input_exists
    &&& e.text is Some
    &&& trimmed(e.text->0@) == label
    &&& label.len() > 0
    &&& path == child(dir, input_name(label_index(e.name@)->0))
}

/// That one of the files of a list of directories labels the sensor at `path`.
pub open spec fn is_given(listings: Seq<Listing>, label: Seq<char>, path: Seq<char>) -> bool {
    exists|i: int, j: int|
        0 <= i < listings.len() && 0 <= j < listings[i].entries@.len() && #[trigger] gives(
            listings[i].entries@[j],
            listings[i].dir@,
            label,
            path,
        )
}

proof fn lemma_entries_given(
    table: Map<Seq<char>, Seq<char>>,
    dir: Seq<char>,
    entries: Seq<Entry>,
    label: Seq<char>,
)
    ensures
        ({
            let after = with_entries(table, dir, entries);
            &&& after.dom().contains(label) ==> (table.dom().contains(label) && after[label]
                == table[label]) || exists|j: int|
                0 <= j < entries.len() && #[trigger] gives(entries[j], dir, label, after[label])
            &&& table.dom().contains(label) ==> after.dom().contains(label)
            &&& forall|j: int, path: Seq<char>|
                0 <= j < entries.len() && #[trigger] gives(entries[j], dir, label, path)
                    ==> after.dom().contains(label)
        }),
    decreases entries.len(),
{
    if entries.len() > 0 {
        let rest = entries.drop_last();
        let last = entries.last();
        lemma_entries_given(table, dir, rest, label);
        let before = with_entries(table, dir, rest);
        let after = with_entries(table, dir, entries);
        assert(entries[entries.len() - 1] == last);
        if after.dom().contains(label) && !(table.dom().contains(label) && after[label]
            == table[label]) {
            if before.dom().contains(label) && before[label] == after[label] {
                let j = choose|j: int|
                    0 <= j < rest.len() && #[trigger] gives(rest[j], dir, label, before[label]);
                assert(gives(entries[j], dir, label, after[label]));
            } else {
                assert(gives(entries[entries.len() - 1], dir, label, after[label]));
            }
        }
        assert forall|j: int, path: Seq<char>|
            0 <= j < entries.len() && #[trigger] gives(
                entries[j],
                dir,
                label,
                path,
            ) implies after.dom().contains(label) by {
            if j < rest.len() {
                assert(gives(rest[j], dir, label, path));
            }
        }
    }
}

/// A sensor is found by its label: the labels in the table are exactly those that label files
/// give to readable sensors, and a label leads to a sensor that bears it, whatever its number.
pub proof fn law_a_sensor_is_found_by_its_label(
    listings: Seq<Listing>,
    label: Seq<char>,
    path: Seq<char>,
)
    ensures
        labelled(listings).dom().contains(label) ==> is_given(
            listings,
            label,
            labelled(listings)[label],
        ),
        is_given(listings, label, path) ==> labelled(listings).dom().contains(label),
    decreases listings.len(),
{
    if listings.len() > 0 {
        let rest = listings.drop_last();
        let last = listings.last();
        let k = listings.len() - 1;
        assert(listings[k] == last);
        law_a_sensor_is_found_by_its_label(rest, label, path);
        lemma_entries_given(labelled(rest), last.dir@, last.entries@, label);
        let table = labelled(listings);
        if table.dom().contains(label) {
            if labelled(rest).dom().contains(label) && labelled(rest)[label] == table[label] {
                let (i, j) = choose|i: int, j: int|
                    0 <= i < rest.len() && 0 <= j < rest[i].entries@.len() && #[trigger] gives(
                        rest[i].entries@[j],
                        rest[i].dir@,
                        label,
                        table[label],
                    );
                assert(gives(listings[i].entries@[j], listings[i].dir@, label, table[label]));
            } else {
                let j = choose|j: int|
                    0 <= j < last.entries@.len() && #[trigger] gives(
                        last.entries@[j],
                        last.dir@,
                        label,
                        table[label],
                    );
                assert(gives(listings[k].entries@[j], listings[k].dir@, label, table[label]));
            }
        }
        if is_given(listings, label, path) {
            let (i, j) = choose|i: int, j: int|
                0 <= i < listings.len() && 0 <= j < listings[i].entries@.len() && #[trigger] gives(
                    listings[i].entries@[j],
                    listings[i].dir@,
                    label,
                    path,
                );
            if i < k {
                assert(gives(rest[i].entries@[j], rest[i].dir@, label, path));
            } else {
                assert(gives(last.entries@[j], last.dir@, label, path));
            }
        }
    }
}

/// That the rows of a table are in the order of their labels, each of which occurs once.
pub open spec fn rows_in_order(rows: Seq<(String, String)>) -> bool {
    forall|i: int, j: int|
        0 <= i < j < rows.len() ==> before(#[trigger] rows[i].0@, #[trigger] rows[j].0@)
}

/// That a label stands in a row.
pub open spec fn has_row(rows: Seq<(String, String)>, label: Seq<char>) -> bool {
    exists|i: int| 0 <= i < rows.len() && (#[trigger] rows[i]).0@ == label
}

/// The row that a label stands in.
pub open spec fn row_of(rows: Seq<(String, String)>, label: Seq<char>) -> int {
    choose|i: int| 0 <= i < rows.len() && (#[trigger] rows[i]).0@ == label
}

/// What the rows of a table say.
pub open spec fn table_of(rows: Seq<(String, String)>) -> Map<Seq<char>, Seq<char>> {
    Map::new(
        |label: Seq<char>| has_row(rows, label),
        |label: Seq<char>| rows[row_of(rows, label)].1@,
    )
}

/// What a row says is what the table says.
proof fn lemma_row(rows: Seq<(String, String)>, i: int)
    requires
        rows_in_order(rows),
        0 <= i < rows.len(),
    ensures
        table_of(rows).dom().contains(rows[i].0@),
        table_of(rows)[rows[i].0@] == rows[i].1@,
{
    let label = rows[i].0@;
    assert(has_row(rows, label));
    let k = row_of(rows, label);
    assert(rows[k].0@ == rows[i].0@);
    lemma_before_irreflexive(label);
    if k < i {
        assert(before(rows[k].0@, rows[i].0@));
    } else if i < k {
        assert(before(rows[i].0@, rows[k].0@));
    }
}

/// Putting a label that has no row into its place keeps the order and adds the label.
proof fn lemma_row_inserted(rows: Seq<(String, String)>, p: int, row: (String, String))
    requires
        rows_in_order(rows),
        0 <= p <= rows.len(),
        forall|i: int| 0 <= i < p ==> before((#[trigger] rows[i]).0@, row.0@),
        forall|i: int| p <= i < rows.len() ==> before(row.0@, (#[trigger] rows[i]).0@),
    ensures
        rows_in_order(rows.insert(p, row)),
        table_of(rows.insert(p, row)) == table_of(rows).insert(row.0@, row.1@),
{
    let after = rows.insert(p, row);
    let table = table_of(rows).insert(row.0@, row.1@);
    assert forall|i: int, j: int| 0 <= i < j < after.len() implies before(
        #[trigger] after[i].0@,
        #[trigger] after[j].0@,
    ) by {
        let ri = if i < p {
            rows[i]
        } else {
            rows[i - 1]
        };
        let rj = if j < p {
            rows[j]
        } else {
            rows[j - 1]
        };
        if i != p && j != p {
            assert(before(ri.0@, rj.0@));
        }
    }
    lemma_row(after, p);
    assert forall|label: Seq<char>| table_of(after).dom().contains(label) == table.dom().contains(
        label,
    ) by {
        if has_row(after, label) {
            let k = row_of(after, label);
            if k < p {
                assert(rows[k].0@ == label);
            } else if k > p {
                assert(rows[k - 1].0@ == label);
            }
        }
        if has_row(rows, label) {
            let k = row_of(rows, label);
            if k < p {
                assert(after[k].0@ == label);
            } else {
                assert(after[k + 1].0@ == label);
            }
        }
    }
    assert forall|label: Seq<char>| #[trigger]
        table_of(after).dom().contains(label) implies table_of(after)[label] == table[label] by {
        let k = row_of(after, label);
        assert(has_row(after, label));
        if k < p {
            lemma_row(rows, k);
            lemma_before_irreflexive(label);
        } else if k > p {
            lemma_row(rows, k - 1);
            lemma_before_irreflexive(label);
        }
    }
    assert(table_of(after) =~= table);
}

/// Another place for a label that has a row keeps the order and changes the place alone.
proof fn lemma_row_replaced(rows: Seq<(String, String)>, p: int, row: (String, String))
    requires
        rows_in_order(rows),
        0 <= p < rows.len(),
        rows[p].0@ == row.0@,
    ensures
        rows_in_order(rows.update(p, row)),
        table_of(rows.update(p, row)) == table_of(rows).insert(row.0@, row.1@),
{
    let after = rows.update(p, row);
    let table = table_of(rows).insert(row.0@, row.1@);
    assert forall|i: int, j: int| 0 <= i < j < after.len() implies before(
        #[trigger] after[i].0@,
        #[trigger] after[j].0@,
    ) by {
        assert(before(rows[i].0@, rows[j].0@));
    }
    lemma_row(after, p);
    assert forall|label: Seq<char>| table_of(after).dom().contains(label) == table.dom().contains(
        label,
    ) by {
        if has_row(after, label) {
            assert(rows[row_of(after, label)].0@ == label);
        }
        if has_row(rows, label) {
            assert(after[row_of(rows, label)].0@ == label);
        }
    }
    assert forall|label: Seq<char>| #[trigger]
        table_of(after).dom().contains(label) implies table_of(after)[label] == table[label] by {
        assert(has_row(after, label));
        let k = row_of(after, label);
        if k != p {
            lemma_row(rows, k);
            lemma_before_irreflexive(label);
            if k < p {
                assert(before(after[k].0@, after[p].0@));
            } else {
                assert(before(after[p].0@, after[k].0@));
            }
        }
    }
    assert(table_of(after) =~= table);
}

/// Enters a label, over an earlier entry of it.
fn enter(rows: &mut Vec<(String, String)>, label: &str, path: String)
    requires
        rows_in_order(old(rows)@),
    ensures
        rows_in_order(final(rows)@),
        table_of(final(rows)@) == table_of(old(rows)@).insert(label@, path@),
{
    let mut p: usize = 0;
    while p < rows.len() && precedes(rows[p].0.as_str(), label)
        invariant
            p <= rows@.len(),
            rows@ == old(rows)@,
            forall|i: int| 0 <= i < p ==> before((#[trigger] rows@[i]).0@, label@),
        decreases rows@.len() - p,
    {
        p += 1;
    }
    let row: (String, String) = (label.to_owned(), path);
    if p < rows.len() && same(rows[p].0.as_str(), label) {
        proof {
            lemma_row_replaced(rows@, p as int, row);
        }
        rows.set(p, row);
    } else {
        proof {
            if p < rows@.len() {
                lemma_before_total(rows@[p as int].0@, label@);
                assert forall|i: int| p <= i < rows@.len() implies before(
                    label@,
                    (#[trigger] rows@[i]).0@,
                ) by {
                    if i > p {
                        assert(before(rows@[p as int].0@, rows@[i].0@));
                        lemma_before_transitive(label@, rows@[p as int].0@, rows@[i].0@);
                    }
                }
            }
            lemma_row_inserted(rows@, p as int, row);
        }
        rows.insert(p, row);
    }
}

/// Enters the labels in a directory.
fn index_labels(dir: &str, entries: &Vec<Entry>, rows: &mut Vec<(String, String)>)
    requires
        rows_in_order(old(rows)@),
    ensures
        rows_in_order(final(rows)@),
        table_of(final(rows)@) == with_entries(table_of(old(rows)@), dir@, entries@),
{
    let mut i: usize = 0;
    assert(entries@.take(0) =~= Seq::<Entry>::empty());
    while i < entries.len()
        invariant
            i <= entries@.len(),
            rows_in_order(rows@),
            table_of(rows@) == with_entries(table_of(old(rows)@), dir@, entries@.take(i as int)),
        decreases entries@.len() - i,
    {
        assert(entries@.take(i + 1).drop_last() =~= entries@.take(i as int));
        assert(entries@.take(i + 1).last() == entries@[i as int]);
        let entry: &Entry = &entries[i];
        match (label_input(entry.name.as_str()), &entry.text) {
            (Some(input), Some(text)) => {
                let label: &str = trim(text.as_str());
                if entry.input_exists && label.unicode_len() > 0 {
                    enter(rows, label, child_of(dir, input.as_str()));
                }
            },
            _ => {},
        }
        i += 1;
    }
    assert(entries@.take(i as int) =~= entries@);
}

/// Why the sensors of a driver were not found.
#[derive(Debug)]
pub enum DiscoverError {
    /// The platform devices could not be listed, and why.
    Unlisted(String),
    /// There is no device of the driver.
    NoDevice,
    /// The device in this directory exposes no labelled sensor.
    NoLabels(String),
}

/// The temperature files of one driver, by label.
pub struct Temps {
    pub dir: String,
    /// The label of each sensor and where it is read.
    pub by_label: Vec<(String, String)>,
}

impl View for Temps {
    type V = Map<Seq<char>, Seq<char>>;

    open spec fn view(&self) -> Map<Seq<char>, Seq<char>> {
        table_of(self.by_label@)
    }
}

impl Temps {
    /// That the labels are in order, each of which occurs once.
    pub open spec fn valid(self) -> bool {
        rows_in_order(self.by_label@)
    }

    /// The sensors of a driver: those that have a label, in its directory and the directories
    /// below that may hold some. `platform_names` are the names of all platform devices, or why
    /// they could not be listed, and `listings` the files of the directories of the driver, as
    /// `sensor_dirs` gives them: of two sensors with one label the last one listed counts.
    pub fn discover(
        source: Source,
        platform_names: &Result<Vec<String>, String>,
        listings: &Vec<Listing>,
    ) -> (r: Result<Temps, DiscoverError>)
        ensures
            match *platform_names {
                Err(e) => r == Err::<Temps, DiscoverError>(DiscoverError::Unlisted(e)),
                Ok(names) => match first_device(texts(names@), source.name()) {
                    None => r == Err::<Temps, DiscoverError>(DiscoverError::NoDevice),
                    Some(name) => {
                        let dir = child(platform(), name);
                        let table = labelled(listings@);
                        if table == Map::<Seq<char>, Seq<char>>::empty() {
                            r matches Err(DiscoverError::NoLabels(d)) && d@ == dir
                        } else {
                            r matches Ok(temps) && temps.valid() && temps@ == table && temps.dir@
                                == dir
                        }
                    },
                },
            },
    {
        let names: &Vec<String> = match platform_names {
            Err(e) => {
                return Err(DiscoverError::Unlisted(e.clone()));
            },
            Ok(names) => names,
        };
        let dir: String = match find_platform_device(source.as_str(), names) {
            None => {
                return Err(DiscoverError::NoDevice);
            },
            Some(dir) => dir,
        };
        let mut by_label: Vec<(String, String)> = Vec::new();
        let mut i: usize = 0;
        assert(table_of(by_label@) =~= Map::<Seq<char>, Seq<char>>::empty());
        assert(listings@.take(0) =~= Seq::<Listing>::empty());
        while i < listings.len()
            invariant
                i <= listings@.len(),
                rows_in_order(by_label@),
                table_of(by_label@) == labelled(listings@.take(i as int)),
            decreases listings@.len() - i,
        {
            assert(listings@.take(i + 1).drop_last() =~= listings@.take(i as int));
            assert(listings@.take(i + 1).last() == listings@[i as int]);
            index_labels(listings[i].dir.as_str(), &listings[i].entries, &mut by_label);
            i += 1;
        }
        assert(listings@.take(i as int) =~= listings@);
        if by_label.len() == 0 {
            assert(table_of(by_label@) =~= Map::<Seq<char>, Seq<char>>::empty());
            return Err(DiscoverError::NoLabels(dir));
        }
        proof {
            lemma_row(by_label@, 0);
        }
        Ok(Temps { dir, by_label })
    }

    /// Where the sensor with this label is read.
    pub fn path(&self, label: &str) -> (r: Option<&str>)
        requires
            self.valid(),
        ensures
            r is Some == self@.dom().contains(label@),
            r matches Some(path) ==> path@ == self@[label@],
    {
        let mut i: usize = 0;
        while i < self.by_label.len()
            invariant
                i <= self.by_label@.len(),
                self.valid(),
                forall|j: int| 0 <= j < i ==> (#[trigger] self.by_label@[j]).0@ != label@,
            decreases self.by_label@.len() - i,
        {
            if same(self.by_label[i].0.as_str(), label) {
                proof {
                    lemma_row(self.by_label@, i as int);
                }
                return Some(self.by_label[i].1.as_str());
            }
            i += 1;
        }
        None
    }

    /// The labels, in order, and where each is read.
    pub fn labels(&self) -> (r: &Vec<(String, String)>)
        requires
            self.valid(),
        ensures
            rows_in_order(r@),
            table_of(r@) == self@,
    {
        &self.by_label
    }
}

/// The number in a file is what its text writes, white space around it aside, where that is in
/// the range of the type; and everything else is no number.
pub proof fn law_a_file_holds_the_number_that_it_writes(
    raw: String,
    left: Seq<char>,
    s: Seq<char>,
    right: Seq<char>,
    e: String,
)
    requires
        raw@ == left + s + right,
        forall|i: int| 0 <= i < left.len() ==> is_white(#[trigger] left[i]),
        forall|i: int| 0 <= i < right.len() ==> is_white(#[trigger] right[i]),
        s.len() > 0 ==> !is_white(s.first()) && !is_white(s.last()),
    ensures
        number_in(Ok(raw)) == (match integer_value(s) {
            Some(n) => if -0x8000_0000_0000_0000 <= n <= 0x7fff_ffff_ffff_ffff {
                Ok::<i64, ReadError>(n as i64)
            } else {
                Err(ReadError::NotANumber(raw))
            },
            None => Err(ReadError::NotANumber(raw)),
        }),
        number_in(Err(e)) == Err::<i64, ReadError>(ReadError::Unreadable(e)),
{
    law_white_space_around_a_text_is_trimmed(left, s, right);
}

/// A number that is written in digits, with a minus sign where it is negative, is the number that
/// is read, whatever white space stands around it.
pub proof fn law_a_written_number_reads_back(
    raw: String,
    left: Seq<char>,
    right: Seq<char>,
    n: i64,
)
    requires
        raw@ == left + (if n < 0 {
            seq!['-'] + decimal((-n) as nat)
        } else {
            decimal(n as nat)
        }) + right,
        forall|i: int| 0 <= i < left.len() ==> is_white(#[trigger] left[i]),
        forall|i: int| 0 <= i < right.len() ==> is_white(#[trigger] right[i]),
    ensures
        number_in(Ok(raw)) == Ok::<i64, ReadError>(n),
        speed_in(Ok(raw)) == (if 0 <= n <= u32::MAX {
            Ok::<u32, ReadError>(n as u32)
        } else {
            Err(ReadError::OutOfRange(n))
        }),
{
    let m = if n < 0 {
        (-n) as nat
    } else {
        n as nat
    };
    let digits = decimal(m);
    let s = if n < 0 {
        seq!['-'] + digits
    } else {
        digits
    };
    lemma_decimal_reads_back(m);
    law_a_number_is_digits_behind_a_sign(digits);
    assert(unsigned_value(digits) is Some);
    assert(is_digit(digits[0]) && is_digit(digits[digits.len() - 1]));
    assert(s.last() == digits.last());
    law_a_file_holds_the_number_that_it_writes(raw, left, s, right, raw);
}

/// A speed is a number in the range of one, and what is wrong with any other is said.
pub proof fn law_a_speed_is_a_number_in_range(contents: Result<String, String>)
    ensures
        number_in(contents) matches Err(e) ==> speed_in(contents) == Err::<u32, ReadError>(e),
        number_in(contents) matches Ok(n) ==> speed_in(contents) == (if 0 <= n <= 0xffff_ffff {
            Ok::<u32, ReadError>(n as u32)
        } else {
            Err(ReadError::OutOfRange(n))
        }),
{
}

/// The kernel writes millidegrees: a thousand times the temperature that is read is the number in
/// the file, to within what the format can tell.
pub proof fn law_a_temperature_is_read_in_degrees(n: i64)
    ensures
        ({
            let t = Datum::nearest(n as int).over(Datum::whole(1000));
            &&& t.is_finite()
            &&& magnitude(t.place() * 1000 - n * unit()) * SPAN <= 3 * magnitude(n * unit()) + SPAN
                * 1000
        }),
{
    let one = unit() as int;
    let m = magnitude(n as int);
    let x = m * one;
    lemma_pow2_pos(1074);
    lemma2_to64();
    lemma_pow2_adds(64, 1074);
    lemma_pow2_strictly_increases(1138, 2097);
    lemma_whole_order(1000, 0);
    assert(0 <= x <= pow2(1138)) by (nonlinear_arith)
        requires
            x == m * one,
            0 <= m <= 0x1_0000_0000_0000_0000,
            one > 0,
            pow2(1138) == 0x1_0000_0000_0000_0000 * one,
    ;
    assert(pow2(2097) * 1 == pow2(2097));
    lemma_rounded_error(x, 1);
    lemma_rounded_finite(x, 1);
    lemma_settled(n < 0, x, 1);
    let r = rounded(x, 1);
    let a = Datum::nearest(n as int);
    assert(a->mag == r);
    let den = 1000 * one;
    assert(r * one >= 0 && den > 0 && r * one <= pow2(2097) * den) by (nonlinear_arith)
        requires
            0 <= r <= pow2(2097),
            one > 0,
            den == 1000 * one,
    ;
    lemma_rounded_error(r * one, den);
    lemma_rounded_finite(r * one, den);
    lemma_settled(n < 0, r * one, den);
    let q = rounded(r * one, den);
    let t = a.over(Datum::whole(1000));
    assert(magnitude(t.place()) == q);
    let near = q * 1000 - r;
    assert(q * den - r * one == near * one) by (nonlinear_arith)
        requires
            near == q * 1000 - r,
            den == 1000 * one,
    ;
    assert(magnitude(near * one) == magnitude(near) * one) by (nonlinear_arith)
        requires
            one > 0,
    ;
    assert(magnitude(near) * SPAN <= r + HALF_SPAN * 1000) by (nonlinear_arith)
        requires
            (magnitude(near) * one) * SPAN <= r * one + HALF_SPAN * den,
            den == 1000 * one,
            one > 0,
    ;
    assert(n < 0 ==> n * one == -x) by (nonlinear_arith)
        requires
            x == m * one,
            n < 0 ==> m == -n,
    ;
}

/// A device is of a driver where its name is that of the driver, or that, a dot and some more.
pub proof fn law_a_device_bears_the_name_of_its_driver(name: Seq<char>, prefix: Seq<char>)
    ensures
        is_device(name, prefix) <==> name == prefix || exists|rest: Seq<char>|
            name == #[trigger] (prefix + "."@ + rest),
{
    let dotted = prefix + "."@;
    if dotted.is_prefix_of(name) {
        let rest = name.skip(dotted.len() as int);
        assert(name =~= prefix + "."@ + rest);
    }
    assert forall|rest: Seq<char>| name == #[trigger] (prefix + "."@ + rest) implies is_device(
        name,
        prefix,
    ) by {
        assert(name.take(dotted.len() as int) =~= dotted);
    }
}

/// The drivers go by these names, their devices lie in this directory, and a file in a directory
/// is named behind a slash.
pub proof fn law_devices_are_found_under_their_names(dir: Seq<char>, name: Seq<char>)
    ensures
        Source::Applesmc.name() == "applesmc"@,
        Source::Coretemp.name() == "coretemp"@,
        platform() == "/sys/devices/platform"@,
        child(dir, name) == dir + "/"@ + name,
{
}

/// A file labels a sensor exactly where it is named `temp`, an index and `_label`, the file named
/// `temp`, the same index and `_input` exists beside it, and it could be read and holds more than
/// white space: what it holds, white space around it aside, is the label of the sensor that is
/// read there.
pub proof fn law_a_label_file_labels_its_own_sensor(
    e: Entry,
    dir: Seq<char>,
    label: Seq<char>,
    path: Seq<char>,
)
    ensures
        gives(e, dir, label, path) <==> exists|index: Seq<char>|
            {
                &&& e.name@ == #[trigger] ("temp"@ + index + "_label"@)
                &&& e.input_exists
                &&& e.text is Some
                &&& trimmed(e.text->0@) == label
                &&& label.len() > 0
                &&& path == dir + "/"@ + ("temp"@ + index + "_input"@)
            },
{
    law_the_middle_is_what_is_left(e.name@, "temp"@, "_label"@);
    if gives(e, dir, label, path) {
        let index = label_index(e.name@)->0;
        assert(e.name@ == "temp"@ + index + "_label"@);
    }
}

/// Taking in a file changes the table exactly where the file labels a sensor: then its label leads
/// to that sensor, in place of any that it led to before, and all other labels stay.
pub proof fn law_a_label_file_is_taken_in(
    table: Map<Seq<char>, Seq<char>>,
    dir: Seq<char>,
    e: Entry,
    label: Seq<char>,
    path: Seq<char>,
)
    ensures
        gives(e, dir, label, path) ==> with_entry(table, dir, e) == table.insert(label, path),
        (forall|l: Seq<char>, p: Seq<char>| !#[trigger] gives(e, dir, l, p)) ==> with_entry(
            table,
            dir,
            e,
        ) == table,
{
    if let (Some(index), Some(text)) = (label_index(e.name@), e.text) {
        if e.input_exists && trimmed(text@).len() > 0 {
            assert(gives(e, dir, trimmed(text@), child(dir, input_name(index))));
        }
    }
}

/// Of several sensors with one label, the one listed last counts, in the last directory and in its
/// last place there.
pub proof fn law_the_last_sensor_with_a_label_counts(
    listings: Seq<Listing>,
    i: int,
    j: int,
    label: Seq<char>,
    path: Seq<char>,
)
    requires
        0 <= i < listings.len(),
        0 <= j < listings[i].entries@.len(),
        gives(listings[i].entries@[j], listings[i].dir@, label, path),
        forall|k: int, p: Seq<char>|
            j < k < listings[i].entries@.len() ==> !#[trigger] gives(
                listings[i].entries@[k],
                listings[i].dir@,
                label,
                p,
            ),
        forall|h: int, k: int, p: Seq<char>|
            i < h < listings.len() && 0 <= k < listings[h].entries@.len() ==> !#[trigger] gives(
                listings[h].entries@[k],
                listings[h].dir@,
                label,
                p,
            ),
    ensures
        labelled(listings).dom().contains(label),
        labelled(listings)[label] == path,
    decreases listings.len(),
{
    let n = listings.len() - 1;
    let rest = listings.drop_last();
    let last = listings.last();
    assert(last == listings[n]);
    if i == n {
        lemma_last_entry(labelled(rest), last.dir@, last.entries@, j, label, path);
    } else {
        assert forall|h: int, k: int, p: Seq<char>|
            i < h < rest.len() && 0 <= k < rest[h].entries@.len() implies !#[trigger] gives(
            rest[h].entries@[k],
            rest[h].dir@,
            label,
            p,
        ) by {
            assert(!gives(listings[h].entries@[k], listings[h].dir@, label, p));
        }
        law_the_last_sensor_with_a_label_counts(rest, i, j, label, path);
        assert forall|k: int, p: Seq<char>| 0 <= k < last.entries@.len() implies !#[trigger] gives(
            last.entries@[k],
            last.dir@,
            label,
            p,
        ) by {
            assert(!gives(listings[n].entries@[k], listings[n].dir@, label, p));
        }
        lemma_label_stays(labelled(rest), last.dir@, last.entries@, label);
    }
}

proof fn lemma_label_stays(
    table: Map<Seq<char>, Seq<char>>,
    dir: Seq<char>,
    entries: Seq<Entry>,
    label: Seq<char>,
)
    requires
        table.dom().contains(label),
        forall|k: int, p: Seq<char>|
            0 <= k < entries.len() ==> !#[trigger] gives(entries[k], dir, label, p),
    ensures
        with_entries(table, dir, entries).dom().contains(label),
        with_entries(table, dir, entries)[label] == table[label],
    decreases entries.len(),
{
    if entries.len() > 0 {
        let rest = entries.drop_last();
        let e = entries.last();
        assert(e == entries[entries.len() - 1]);
        assert forall|k: int, p: Seq<char>| 0 <= k < rest.len() implies !#[trigger] gives(
            rest[k],
            dir,
            label,
            p,
        ) by {
            assert(!gives(entries[k], dir, label, p));
        }
        lemma_label_stays(table, dir, rest, label);
        if let (Some(index), Some(text)) = (label_index(e.name@), e.text) {
            if e.input_exists && trimmed(text@).len() > 0 {
                assert(gives(e, dir, trimmed(text@), child(dir, input_name(index))));
                assert(trimmed(text@) != label);
            }
        }
    }
}

proof fn lemma_last_entry(
    table: Map<Seq<char>, Seq<char>>,
    dir: Seq<char>,
    entries: Seq<Entry>,
    j: int,
    label: Seq<char>,
    path: Seq<char>,
)
    requires
        0 <= j < entries.len(),
        gives(entries[j], dir, label, path),
        forall|k: int, p: Seq<char>|
            j < k < entries.len() ==> !#[trigger] gives(entries[k], dir, label, p),
    ensures
        with_entries(table, dir, entries).dom().contains(label),
        with_entries(table, dir, entries)[label] == path,
    decreases entries.len(),
{
    let n = entries.len() - 1;
    let rest = entries.drop_last();
    let e = entries.last();
    assert(e == entries[n]);
    if j < n {
        assert forall|k: int, p: Seq<char>| j < k < rest.len() implies !#[trigger] gives(
            rest[k],
            dir,
            label,
            p,
        ) by {
            assert(!gives(entries[k], dir, label, p));
        }
        assert(gives(rest[j], dir, label, path));
        lemma_last_entry(table, dir, rest, j, label, path);
        if let (Some(index), Some(text)) = (label_index(e.name@), e.text) {
            if e.input_exists && trimmed(text@).len() > 0 {
                assert(gives(e, dir, trimmed(text@), child(dir, input_name(index))));
                assert(trimmed(text@) != label);
            }
        }
    }
}

/// A table says what its rows say: each row leads from its label to where the sensor is read, and
/// a label without a row leads nowhere.
pub proof fn law_a_table_says_what_its_rows_say(
    rows: Seq<(String, String)>,
    i: int,
    label: Seq<char>,
)
    requires
        rows_in_order(rows),
    ensures
        0 <= i < rows.len() ==> table_of(rows).dom().contains(rows[i].0@)
            && table_of(rows)[rows[i].0@] == rows[i].1@,
        table_of(rows).dom().contains(label) <==> exists|k: int|
            0 <= k < rows.len() && (#[trigger] rows[k]).0@ == label,
        forall|j: int, k: int|
            0 <= j < k < rows.len() ==> before(#[trigger] rows[j].0@, #[trigger] rows[k].0@),
{
    if 0 <= i < rows.len() {
        lemma_row(rows, i);
    }
}

/// Texts that are put in order stand behind none that they stand before, and none is lost or comes
/// to be.
pub proof fn law_texts_are_put_in_order(list: Seq<Seq<char>>, i: int, j: int)
    requires
        0 <= i < j < list.len(),
    ensures
        sorted(list, text_order()).len() == list.len(),
        sorted(list, text_order()).to_multiset() == list.to_multiset(),
        sorted(list, text_order())[i] == sorted(list, text_order())[j] || before(
            sorted(list, text_order())[i],
            sorted(list, text_order())[j],
        ),
{
    let lt = text_order();
    let s = sorted(list, lt);
    lemma_text_order();
    lemma_sorted(list, lt);
    assert(!lt(s[j], s[i]));
    lemma_before_total(s[i], s[j]);
}

/// A label file is named `temp`, an index and `_label`, and the file that it labels `temp`, the
/// same index and `_input`.
pub proof fn law_a_label_file_is_named_by_its_index(name: Seq<char>, index: Seq<char>)
    ensures
        label_index(name) == Some(index) <==> name == "temp"@ + index + "_label"@,
        label_index(name) is None <==> forall|i: Seq<char>|
            name != #[trigger] ("temp"@ + i + "_label"@),
        input_name(index) == "temp"@ + index + "_input"@,
{
    law_the_middle_is_what_is_left(name, "temp"@, "_label"@);
    if let Some(i) = label_index(name) {
        assert(name == "temp"@ + i + "_label"@);
    }
}

} // verus!
