//! The fans: finding them, what is to be written to drive them, and how a round of writes goes.
use crate::sorting::{in_order, is_weak_order, lemma_inserted_at, lemma_sorted, sorted};
use crate::sysfs::{read_u32, speed_in, ReadError};
use crate::text::{
    before, between, decimal, decimal_text, joined, law_the_middle_is_what_is_left,
    lemma_before_irreflexive, lemma_before_total, lemma_before_transitive,
    lemma_decimal_reads_back, middle, natural_value, parse_u64, precedes, trim, trimmed,
};
use vstd::prelude::*;

verus! {

/// A text to be written to a file.
#[derive(Debug)]
pub struct Write {
    pub path: String,
    pub text: String,
}

/// What a write is: the path and the text.
pub struct WriteModel {
    pub path: Seq<char>,
    pub text: Seq<char>,
}

impl View for Write {
    type V = WriteModel;

    open spec fn view(&self) -> WriteModel {
        WriteModel { path: self.path@, text: self.text@ }
    }
}

/// One fan, with the SMC's own idea of how fast it is allowed to spin.
#[derive(Debug)]
pub struct Fan {
    pub label: String,
    /// The number in the names of the fan's files.
    pub index: String,
    pub input: String,
    pub output: String,
    /// The file that holds 1 while software drives the fan, and 0 while the SMC does.
    pub control_mode: String,
    pub hw_min: u32,
    pub hw_max: u32,
}

/// What a fan is, its texts by their characters.
pub struct FanModel {
    pub label: Seq<char>,
    pub index: Seq<char>,
    pub input: Seq<char>,
    pub output: Seq<char>,
    pub control_mode: Seq<char>,
    pub hw_min: u32,
    pub hw_max: u32,
}

impl View for Fan {
    type V = FanModel;

    open spec fn view(&self) -> FanModel {
        FanModel {
            label: self.label@,
            index: self.index@,
            input: self.input@,
            output: self.output@,
            control_mode: self.control_mode@,
            hw_min: self.hw_min,
            hw_max: self.hw_max,
        }
    }
}

/// A speed held to the bounds of a fan.
pub open spec fn bounded(rpm: u32, low: u32, high: u32) -> u32 {
    if rpm < low {
        low
    } else if rpm > high {
        high
    } else {
        rpm
    }
}

impl FanModel {
    /// The write that commands a speed.
    pub open spec fn speed_write(self, rpm: u32) -> WriteModel {
        WriteModel {
            path: self.output,
            text: decimal(bounded(rpm, self.hw_min, self.hw_max) as nat),
        }
    }

    /// The write that hands the fan to software, or back to the SMC.
    pub open spec fn control_write(self, software: bool) -> WriteModel {
        WriteModel {
            path: self.control_mode,
            text: if software {
                "1"@
            } else {
                "0"@
            },
        }
    }
}

impl Fan {
    /// The speed the fan runs at, given what its tachometer file holds.
    pub fn rpm(&self, contents: &Result<String, String>) -> (r: Result<u32, ReadError>)
        ensures
            r == speed_in(*contents),
    {
        read_u32(contents)
    }

    /// The write that commands a speed. The SMC holds it to its own bounds; so it is done here
    /// too, and what is reported is what the hardware was asked for.
    pub fn set_rpm(&self, rpm: u32) -> (r: Write)
        requires
            self.hw_min <= self.hw_max,
        ensures
            r@ == self@.speed_write(rpm),
    {
        let held: u32 = if rpm < self.hw_min {
            self.hw_min
        } else if rpm > self.hw_max {
            self.hw_max
        } else {
            rpm
        };
        Write { path: self.output.clone(), text: decimal_text(held as u64) }
    }

    /// The write that hands the fan to software, or gives it back to the SMC's own curve.
    pub fn set_software_control(&self, software: bool) -> (r: Write)
        ensures
            r@ == self@.control_write(software),
    {
        let text: &str = if software {
            "1"
        } else {
            "0"
        };
        Write { path: self.control_mode.clone(), text: text.to_owned() }
    }
}

/// One file of the SMC's directory: its name and, for a file that commands a fan, what the
/// files hold that give the fan's bounds and its label.
#[derive(Debug)]
pub struct FanEntry {
    pub name: String,
    pub min: Result<String, String>,
    pub max: Result<String, String>,
    pub label: Option<String>,
}

/// Why the fans were not found. A fan is named by the file that commands it.
#[derive(Debug)]
pub enum FanError {
    /// The directory could not be listed, and why.
    Unlisted(String),
    /// One of its files could not be listed, and why.
    Entry(String),
    /// The bounds of a fan did not read.
    Minimum { name: String, cause: ReadError },
    Maximum { name: String, cause: ReadError },
    /// The bounds of a fan are nothing.
    ZeroMinimum { name: String },
    ZeroMaximum { name: String },
    /// There is no fan.
    NoFans,
}

/// The index in the name of a file that commands a fan.
pub open spec fn fan_index(name: Seq<char>) -> Option<Seq<char>> {
    middle(name, "fan"@, "_output"@)
}

/// A file of a fan.
pub open spec fn fan_file(dir: Seq<char>, index: Seq<char>, suffix: Seq<char>) -> Seq<char> {
    dir + "/fan"@ + index + suffix
}

/// The index in the name of a file that commands a fan.
pub fn index_of_fan(name: &str) -> (r: Option<&str>)
    ensures
        match fan_index(name@) {
            Some(index) => r is Some && r->0@ == index,
            None => r is None,
        },
{
    between(name, "fan", "_output")
}

/// A file of a fan.
pub fn file_of_fan(dir: &str, index: &str, suffix: &str) -> (r: String)
    ensures
        r@ == fan_file(dir@, index@, suffix@),
{
    dir.to_owned().concat("/fan").concat(index).concat(suffix)
}

/// The label of a fan: what its label file says, or else its number.
pub open spec fn fan_label(index: Seq<char>, text: Option<String>) -> Seq<char> {
    match text {
        Some(text) => if trimmed(text@).len() > 0 {
            trimmed(text@)
        } else {
            "fan"@ + index
        },
        None => "fan"@ + index,
    }
}

/// The fan that a file commands, or why it is not one to drive. Neither bound is guessed: a
/// guessed minimum of nothing is a licence to stall the fan.
pub open spec fn fan_in(dir: Seq<char>, e: FanEntry) -> Option<Result<FanModel, FanError>> {
    match fan_index(e.name@) {
        None => None,
        Some(index) => Some(
            match (speed_in(e.min), speed_in(e.max)) {
                (Err(cause), _) => Err(FanError::Minimum { name: e.name, cause }),
                (_, Err(cause)) => Err(FanError::Maximum { name: e.name, cause }),
                (Ok(min), Ok(max)) => if min == 0 {
                    Err(FanError::ZeroMinimum { name: e.name })
                } else if max == 0 {
                    Err(FanError::ZeroMaximum { name: e.name })
                } else {
                    Ok(
                        FanModel {
                            label: fan_label(index, e.label),
                            index,
                            input: fan_file(dir, index, "_input"@),
                            output: fan_file(dir, index, "_output"@),
                            control_mode: fan_file(dir, index, "_manual"@),
                            hw_min: min,
                            hw_max: max,
                        },
                    )
                },
            },
        ),
    }
}

/// The fans in a directory, in the order they were listed, or the first error.
pub open spec fn fans_in(dir: Seq<char>, entries: Seq<Result<FanEntry, String>>) -> Result<
    Seq<FanModel>,
    FanError,
>
    decreases entries.len(),
{
    if entries.len() == 0 {
        Ok(Seq::empty())
    } else {
        match fans_in(dir, entries.drop_last()) {
            Err(e) => Err(e),
            Ok(fans) => match entries.last() {
                Err(e) => Err(FanError::Entry(e)),
                Ok(entry) => match fan_in(dir, entry) {
                    None => Ok(fans),
                    Some(Err(e)) => Err(e),
                    Some(Ok(fan)) => Ok(fans.push(fan)),
                },
            },
        }
    }
}

/// The number that an index writes, where it is one.
pub open spec fn index_number(index: Seq<char>) -> Option<u64> {
    match natural_value(index) {
        Some(n) => if n <= u64::MAX {
            Some(n as u64)
        } else {
            None
        },
        None => None,
    }
}

/// That a fan stands before another: by the number of its index, a fan without one behind
/// those with one, and otherwise by the name of its files.
pub open spec fn fan_before(a: FanModel, b: FanModel) -> bool {
    match (index_number(a.index), index_number(b.index)) {
        (Some(x), Some(y)) => x < y || (x == y && before(a.output, b.output)),
        (Some(_), None) => true,
        (None, Some(_)) => false,
        (None, None) => before(a.output, b.output),
    }
}

/// The order of fans.
pub open spec fn fan_order() -> spec_fn(FanModel, FanModel) -> bool {
    |a: FanModel, b: FanModel| fan_before(a, b)
}

proof fn lemma_fan_order()
    ensures
        is_weak_order(fan_order()),
{
    let lt = fan_order();
    assert forall|a: FanModel, b: FanModel| #[trigger] lt(a, b) implies !lt(b, a) by {
        if before(a.output, b.output) && before(b.output, a.output) {
            lemma_before_transitive(a.output, b.output, a.output);
            lemma_before_irreflexive(a.output);
        }
    }
    assert forall|a: FanModel, b: FanModel, c: FanModel|
        !#[trigger] lt(a, b) && !#[trigger] lt(b, c) implies !lt(a, c) by {
        lemma_before_total(a.output, b.output);
        lemma_before_total(b.output, c.output);
        if before(a.output, c.output) {
            if before(b.output, a.output) {
                lemma_before_transitive(b.output, a.output, c.output);
            }
        }
    }
}

/// Whether a fan stands before another.
fn goes_before(a: &Fan, b: &Fan) -> (r: bool)
    ensures
        r == fan_before(a@, b@),
{
    match (parse_u64(a.index.as_str()), parse_u64(b.index.as_str())) {
        (Some(x), Some(y)) => x < y || (x == y && precedes(a.output.as_str(), b.output.as_str())),
        (Some(_), None) => true,
        (None, Some(_)) => false,
        (None, None) => precedes(a.output.as_str(), b.output.as_str()),
    }
}

/// The models of a list of fans.
pub open spec fn fan_models(fans: Seq<Fan>) -> Seq<FanModel> {
    fans.map_values(|f: Fan| f@)
}

/// Puts a fan in its place among fans that are in order.
fn put(fans: &mut Vec<Fan>, fan: Fan, Ghost(found): Ghost<Seq<FanModel>>)
    requires
        fan_models(old(fans)@) == sorted(found, fan_order()),
    ensures
        fan_models(final(fans)@) == sorted(found.push(fan@), fan_order()),
{
    let ghost lt = fan_order();
    let ghost models = fan_models(fans@);
    let mut p: usize = fans.len();
    while p > 0 && goes_before(&fan, &fans[p - 1])
        invariant
            p <= fans@.len(),
            fans@ == old(fans)@,
            models == fan_models(fans@),
            lt == fan_order(),
            forall|k: int| p <= k < models.len() ==> lt(fan@, #[trigger] models[k]),
        decreases p,
    {
        assert(models[p - 1] == fans@[p - 1]@);
        p -= 1;
    }
    proof {
        assert(p > 0 ==> models[p - 1] == fans@[p - 1]@);
        lemma_inserted_at(models, fan@, p as int, lt);
        assert(found.push(fan@).drop_last() =~= found);
    }
    let ghost model = fan@;
    fans.insert(p, fan);
    assert(fan_models(fans@) =~= models.insert(p as int, model));
}

/// The fan that a file commands, or why it is not one to drive.
fn read_fan(dir: &str, e: &FanEntry) -> (r: Option<Result<Fan, FanError>>)
    ensures
        match fan_in(dir@, *e) {
            None => r is None,
            Some(Err(error)) => r == Some(Err::<Fan, FanError>(error)),
            Some(Ok(fan)) => r is Some && r->0 is Ok && r->0->Ok_0@ == fan,
        },
{
    let index: &str = match index_of_fan(e.name.as_str()) {
        None => {
            return None;
        },
        Some(index) => index,
    };
    let hw_min: u32 = match read_u32(&e.min) {
        Err(cause) => {
            return Some(Err(FanError::Minimum { name: e.name.clone(), cause }));
        },
        Ok(min) => min,
    };
    let hw_max: u32 = match read_u32(&e.max) {
        Err(cause) => {
            return Some(Err(FanError::Maximum { name: e.name.clone(), cause }));
        },
        Ok(max) => max,
    };
    if hw_min == 0 {
        return Some(Err(FanError::ZeroMinimum { name: e.name.clone() }));
    }
    if hw_max == 0 {
        return Some(Err(FanError::ZeroMaximum { name: e.name.clone() }));
    }
    let said: &str = match &e.label {
        Some(text) => trim(text.as_str()),
        None => "",
    };
    proof {
        reveal_strlit("");
    }
    let label: String = if said.unicode_len() > 0 {
        said.to_owned()
    } else {
        joined("fan", index)
    };
    Some(
        Ok(
            Fan {
                label,
                index: index.to_owned(),
                input: file_of_fan(dir, index, "_input"),
                output: file_of_fan(dir, index, "_output"),
                control_mode: file_of_fan(dir, index, "_manual"),
                hw_min,
                hw_max,
            },
        ),
    )
}

/// Every fan the SMC exposes, in index order, given the files of its directory or why they
/// could not be listed.
pub fn discover_fans(applesmc: &str, listing: &Result<Vec<Result<FanEntry, String>>, String>)
    -> (r: Result<Vec<Fan>, FanError>)
    ensures
        match *listing {
            Err(e) => r == Err::<Vec<Fan>, FanError>(FanError::Unlisted(e)),
            Ok(entries) => match fans_in(applesmc@, entries@) {
                Err(e) => r == Err::<Vec<Fan>, FanError>(e),
                Ok(found) => if found.len() == 0 {
                    r == Err::<Vec<Fan>, FanError>(FanError::NoFans)
                } else {
                    r is Ok && fan_models(r->Ok_0@) == sorted(found, fan_order())
                },
            },
        },
{
    let entries: &Vec<Result<FanEntry, String>> = match listing {
        Err(e) => {
            return Err(FanError::Unlisted(e.clone()));
        },
        Ok(entries) => entries,
    };
    let mut fans: Vec<Fan> = Vec::new();
    let ghost mut found = Seq::<FanModel>::empty();
    let mut i: usize = 0;
    assert(entries@.take(0) =~= Seq::<Result<FanEntry, String>>::empty());
    assert(fan_models(fans@) =~= sorted(found, fan_order()));
    while i < entries.len()
        invariant
            i <= entries@.len(),
            *listing == Ok::<Vec<Result<FanEntry, String>>, String>(*entries),
            fans_in(applesmc@, entries@.take(i as int)) == Ok::<Seq<FanModel>, FanError>(found),
            fan_models(fans@) == sorted(found, fan_order()),
            found.len() == fans@.len(),
        decreases entries@.len() - i,
    {
        proof {
            assert(entries@.take(i + 1).drop_last() =~= entries@.take(i as int));
            assert(entries@.take(i + 1).last() == entries@[i as int]);
        }
        match &entries[i] {
            Err(e) => {
                proof {
                    lemma_first_error(applesmc@, entries@, i + 1);
                }
                return Err(FanError::Entry(e.clone()));
            },
            Ok(entry) => match read_fan(applesmc, entry) {
                None => {},
                Some(Err(e)) => {
                    proof {
                        lemma_first_error(applesmc@, entries@, i + 1);
                    }
                    return Err(e);
                },
                Some(Ok(fan)) => {
                    let ghost model = fan@;
                    put(&mut fans, fan, Ghost(found));
                    proof {
                        lemma_fan_order();
                        lemma_sorted(found.push(model), fan_order());
                        found = found.push(model);
                    }
                },
            },
        }
        i += 1;
    }
    assert(entries@.take(i as int) =~= entries@);
    if fans.len() == 0 {
        return Err(FanError::NoFans);
    }
    Ok(fans)
}

/// An error stays the first one, whatever follows.
proof fn lemma_first_error(dir: Seq<char>, entries: Seq<Result<FanEntry, String>>, n: int)
    requires
        0 <= n <= entries.len(),
        fans_in(dir, entries.take(n)) is Err,
    ensures
        fans_in(dir, entries) == fans_in(dir, entries.take(n)),
    decreases entries.len(),
{
    if n == entries.len() {
        assert(entries.take(n) =~= entries);
    } else {
        assert(entries.drop_last().take(n) =~= entries.take(n));
        lemma_first_error(dir, entries.drop_last(), n);
    }
}

/// The fans come out in index order, and every one that was found, and no other, comes out.
pub proof fn law_fans_are_in_index_order(found: Seq<FanModel>)
    ensures
        in_order(sorted(found, fan_order()), fan_order()),
        forall|i: int, j: int|
            #![trigger sorted(found, fan_order())[i], sorted(found, fan_order())[j]]
            0 <= i < j < found.len() ==> {
                let a = index_number(sorted(found, fan_order())[i].index);
                let b = index_number(sorted(found, fan_order())[j].index);
                a is Some && b is Some ==> a->0 <= b->0
            },
        sorted(found, fan_order()).to_multiset() == found.to_multiset(),
{
    lemma_fan_order();
    lemma_sorted(found, fan_order());
    let lt = fan_order();
    let s = sorted(found, fan_order());
    assert forall|i: int, j: int|
        #![trigger s[i], s[j]]
        0 <= i < j < found.len() && index_number(s[i].index) is Some && index_number(
            s[j].index,
        ) is Some implies index_number(s[i].index)->0 <= index_number(s[j].index)->0 by {
        assert(!lt(s[j], s[i]));
    }
}

/// No fan comes out that could be commanded to stand still: both bounds are above nothing.
pub proof fn law_no_fan_may_be_stalled(
    dir: Seq<char>,
    entries: Seq<Result<FanEntry, String>>,
    i: int,
)
    requires
        fans_in(dir, entries) is Ok,
        0 <= i < fans_in(dir, entries)->Ok_0.len(),
    ensures
        fans_in(dir, entries)->Ok_0[i].hw_min > 0,
        fans_in(dir, entries)->Ok_0[i].hw_max > 0,
    decreases entries.len(),
{
    if entries.len() > 0 {
        let before = fans_in(dir, entries.drop_last())->Ok_0;
        if i < before.len() {
            law_no_fan_may_be_stalled(dir, entries.drop_last(), i);
        }
    }
}

/// A speed that is written to a file is the speed that is read from it.
pub proof fn law_a_written_speed_reads_back(rpm: u32, text: String)
    requires
        text@ == decimal(rpm as nat),
    ensures
        speed_in(Ok(text)) == Ok::<u32, ReadError>(rpm),
{
    lemma_decimal_reads_back(rpm as nat);
}

/// A commanded speed is one that the fan accepts.
pub proof fn law_a_commanded_speed_is_in_bounds(rpm: u32, low: u32, high: u32)
    requires
        low <= high,
    ensures
        low <= bounded(rpm, low, high) <= high,
        low <= rpm <= high ==> bounded(rpm, low, high) == rpm,
{
}

/// A speed below the bounds of a fan becomes the lower one, one above them the upper one, and one
/// between them stays what it is.
pub proof fn law_a_speed_is_held_to_the_nearer_bound(rpm: u32, low: u32, high: u32)
    requires
        low <= high,
    ensures
        rpm <= low ==> bounded(rpm, low, high) == low,
        rpm >= high ==> bounded(rpm, low, high) == high,
        low <= rpm <= high ==> bounded(rpm, low, high) == rpm,
{
}

/// A fan is named by its index, which stands between `fan` and `_output` in the name of the file
/// that commands it; its files lie in the same directory under that index.
pub proof fn law_a_fan_is_named_by_its_index(
    dir: Seq<char>,
    name: Seq<char>,
    index: Seq<char>,
    suffix: Seq<char>,
)
    ensures
        fan_index(name) == Some(index) <==> name == "fan"@ + index + "_output"@,
        fan_index(name) is None <==> forall|i: Seq<char>|
            name != #[trigger] ("fan"@ + i + "_output"@),
        fan_file(dir, index, suffix) == dir + "/fan"@ + index + suffix,
{
    law_the_middle_is_what_is_left(name, "fan"@, "_output"@);
    if let Some(i) = fan_index(name) {
        assert(name == "fan"@ + i + "_output"@);
    }
}

/// What a file that commands a fan tells of it. A bound that does not read is an error, the lower
/// one first, and so is one of nothing. Otherwise the fan has the bounds that were read, its files
/// beside the one that commands it, and the label that its label file holds, or its number where
/// that holds nothing but white space or is not there.
pub proof fn law_a_fan_has_the_bounds_that_it_reads(dir: Seq<char>, e: FanEntry, index: Seq<char>)
    requires
        e.name@ == "fan"@ + index + "_output"@,
    ensures
        speed_in(e.min) is Err ==> fan_in(dir, e) == Some(
            Err::<FanModel, FanError>(
                FanError::Minimum { name: e.name, cause: speed_in(e.min)->Err_0 },
            ),
        ),
        speed_in(e.min) is Ok && speed_in(e.max) is Err ==> fan_in(dir, e) == Some(
            Err::<FanModel, FanError>(
                FanError::Maximum { name: e.name, cause: speed_in(e.max)->Err_0 },
            ),
        ),
        speed_in(e.min) is Ok && speed_in(e.max) is Ok ==> {
            let min = speed_in(e.min)->Ok_0;
            let max = speed_in(e.max)->Ok_0;
            &&& min == 0 ==> fan_in(dir, e) == Some(
                Err::<FanModel, FanError>(FanError::ZeroMinimum { name: e.name }),
            )
            &&& min > 0 && max == 0 ==> fan_in(dir, e) == Some(
                Err::<FanModel, FanError>(FanError::ZeroMaximum { name: e.name }),
            )
            &&& min > 0 && max > 0 ==> {
                let fan = fan_in(dir, e)->0->Ok_0;
                &&& fan_in(dir, e) is Some && fan_in(dir, e)->0 is Ok
                &&& fan.index == index
                &&& fan.input == dir + "/fan"@ + index + "_input"@
                &&& fan.output == dir + "/fan"@ + index + "_output"@
                &&& fan.control_mode == dir + "/fan"@ + index + "_manual"@
                &&& fan.hw_min == min
                &&& fan.hw_max == max
                &&& e.label is None ==> fan.label == "fan"@ + index
                &&& e.label matches Some(text) ==> fan.label == (if trimmed(text@)
                    == Seq::<char>::empty() {
                    "fan"@ + index
                } else {
                    trimmed(text@)
                })
            }
        },
{
    law_a_fan_is_named_by_its_index(dir, e.name@, index, "_input"@);
    if let Some(text) = e.label {
        assert(trimmed(text@).len() == 0 ==> trimmed(text@) =~= Seq::<char>::empty());
    }
}

/// The fans of a directory are those of its files that command one, in the order of the files, as
/// long as every file could be listed and no fan is in error; `which` are those files. Otherwise
/// there is an error, and it is that of the first file that has one.
pub proof fn law_every_fan_is_found_or_an_error_is_named(
    dir: Seq<char>,
    entries: Seq<Result<FanEntry, String>>,
) -> (which: Seq<int>)
    ensures
        ({
            let faulty = |i: int|
                entries[i] is Err || (fan_in(dir, entries[i]->Ok_0) matches Some(Err(_)));
            match fans_in(dir, entries) {
                Ok(fans) => {
                    &&& forall|i: int| 0 <= i < entries.len() ==> !#[trigger] faulty(i)
                    &&& which.len() == fans.len()
                    &&& forall|k: int|
                        0 <= k < which.len() ==> {
                            &&& 0 <= #[trigger] which[k] < entries.len()
                            &&& fan_in(dir, entries[which[k]]->Ok_0) == Some(
                                Ok::<FanModel, FanError>(fans[k]),
                            )
                        }
                    &&& forall|j: int, k: int|
                        0 <= j < k < which.len() ==> #[trigger] which[j] < #[trigger] which[k]
                    &&& forall|i: int|
                        0 <= i < entries.len() && fan_in(
                            dir,
                            (#[trigger] entries[i])->Ok_0,
                        ) is Some ==> which.contains(i)
                },
                Err(e) => {
                    &&& which.len() == 1
                    &&& 0 <= which[0] < entries.len()
                    &&& faulty(which[0])
                    &&& forall|i: int| 0 <= i < which[0] ==> !#[trigger] faulty(i)
                    &&& entries[which[0]] matches Err(cause) ==> e == FanError::Entry(cause)
                    &&& entries[which[0]] matches Ok(entry) ==> fan_in(dir, entry) == Some(
                        Err::<FanModel, FanError>(e),
                    )
                },
            }
        }),
    decreases entries.len(),
{
    if entries.len() == 0 {
        Seq::empty()
    } else {
        let rest = entries.drop_last();
        let n = entries.len() - 1;
        let was = law_every_fan_is_found_or_an_error_is_named(dir, rest);
        let faulty = |i: int|
            entries[i] is Err || (fan_in(dir, entries[i]->Ok_0) matches Some(Err(_)));
        let faulty_rest = |i: int|
            rest[i] is Err || (fan_in(dir, rest[i]->Ok_0) matches Some(Err(_)));
        assert(entries.last() == entries[n]);
        assert forall|i: int| 0 <= i < n implies rest[i] == entries[i] && faulty_rest(i)
            == #[trigger] faulty(i) by {}
        match fans_in(dir, rest) {
            Err(e) => {
                assert(entries[was[0]] == rest[was[0]]);
                assert(faulty_rest(was[0]));
                assert forall|i: int| 0 <= i < was[0] implies !#[trigger] faulty(i) by {
                    assert(!faulty_rest(i));
                }
                was
            },
            Ok(fans) => {
                assert forall|i: int| 0 <= i < n implies !#[trigger] faulty(i) by {
                    assert(!faulty_rest(i));
                }
                if faulty(n) {
                    seq![n]
                } else if fan_in(dir, entries[n]->Ok_0) is None {
                    assert forall|k: int| 0 <= k < was.len() implies {
                        &&& 0 <= #[trigger] was[k] < entries.len()
                        &&& fan_in(dir, entries[was[k]]->Ok_0) == Some(
                            Ok::<FanModel, FanError>(fans[k]),
                        )
                    } by {
                        assert(rest[was[k]] == entries[was[k]]);
                    }
                    assert forall|i: int|
                        0 <= i < entries.len() && fan_in(
                            dir,
                            (#[trigger] entries[i])->Ok_0,
                        ) is Some implies was.contains(i) by {
                        assert(rest[i] == entries[i]);
                    }
                    was
                } else {
                    let which = was.push(n);
                    let now = fans_in(dir, entries)->Ok_0;
                    assert forall|k: int| 0 <= k < which.len() implies {
                        &&& 0 <= #[trigger] which[k] < entries.len()
                        &&& fan_in(dir, entries[which[k]]->Ok_0) == Some(
                            Ok::<FanModel, FanError>(now[k]),
                        )
                    } by {
                        if k < was.len() {
                            assert(which[k] == was[k]);
                            assert(rest[was[k]] == entries[was[k]]);
                        }
                    }
                    assert forall|j: int, k: int|
                        0 <= j < k < which.len() implies #[trigger] which[j]
                        < #[trigger] which[k] by {
                        if k < was.len() {
                            assert(was[j] < was[k]);
                        } else {
                            assert(0 <= was[j] < rest.len());
                        }
                    }
                    assert forall|i: int|
                        0 <= i < entries.len() && fan_in(
                            dir,
                            (#[trigger] entries[i])->Ok_0,
                        ) is Some implies which.contains(i) by {
                        if i < n {
                            assert(rest[i] == entries[i]);
                            let k = was.index_of(i);
                            assert(which[k] == i);
                        } else {
                            assert(which[was.len() as int] == n);
                        }
                    }
                    which
                }
            },
        }
    }
}

/// Fans are ordered by the numbers that their indices write, those with a number before those
/// without; and by the names of their files where that does not tell.
pub proof fn law_fans_are_ordered_by_number(a: FanModel, b: FanModel, x: u64, y: u64)
    ensures
        index_number(decimal(x as nat)) == Some(x),
        a.index == decimal(x as nat) && b.index == decimal(y as nat) && x != y ==> fan_before(a, b)
            == (x < y),
        a.index == decimal(x as nat) && natural_value(b.index) is None ==> fan_before(a, b)
            && !fan_before(b, a),
        a.index == b.index ==> fan_before(a, b) == before(a.output, b.output),
        natural_value(a.index) is None && natural_value(b.index) is None ==> fan_before(a, b)
            == before(a.output, b.output),
        natural_value(a.index) matches Some(n) ==> n > u64::MAX ==> index_number(a.index) is None,
{
    lemma_decimal_reads_back(x as nat);
    lemma_decimal_reads_back(y as nat);
    let s = decimal(x as nat);
    let t = decimal(y as nat);
    assert(s.len() > 0 && t.len() > 0);
    assert(crate::text::is_digit(s[0]) && crate::text::is_digit(t[0]));
    assert(natural_value(s) == Some(x as int) && natural_value(t) == Some(y as int));
}

/// Fans that are put in order stand behind none that they go before, and none is lost or comes to
/// be.
pub proof fn law_fans_are_put_in_order(found: Seq<FanModel>, i: int, j: int)
    requires
        0 <= i < j < found.len(),
    ensures
        sorted(found, fan_order()).len() == found.len(),
        sorted(found, fan_order()).to_multiset() == found.to_multiset(),
        !fan_before(sorted(found, fan_order())[j], sorted(found, fan_order())[i]),
{
    let lt = fan_order();
    let s = sorted(found, lt);
    lemma_fan_order();
    lemma_sorted(found, lt);
    assert(!lt(s[j], s[i]));
}

/// A fan is what its fields say, its texts by their characters, and the fans of a list are so in
/// their order.
pub proof fn law_a_fan_is_what_its_fields_say(fans: Seq<Fan>, i: int)
    requires
        0 <= i < fans.len(),
    ensures
        fan_models(fans).len() == fans.len(),
        fan_models(fans)[i].label == fans[i].label@,
        fan_models(fans)[i].index == fans[i].index@,
        fan_models(fans)[i].input == fans[i].input@,
        fan_models(fans)[i].output == fans[i].output@,
        fan_models(fans)[i].control_mode == fans[i].control_mode@,
        fan_models(fans)[i].hw_min == fans[i].hw_min,
        fan_models(fans)[i].hw_max == fans[i].hw_max,
{
}

} // verus!
