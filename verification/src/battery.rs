//! The charge of the battery.
use vstd::prelude::*;
use vstd::string::*;

use crate::text::{
    chars, lower_text, lowered, parse_integer, parse_signed, same_text, trim, trim_chars, trimmed,
};

verus! {

/// Whether the battery is charged or drained.
#[derive(Clone, Copy, Debug, PartialEq, Eq, Structural)]
pub enum Status {
    Unknown,
    Charging,
    Discharging,
    NotCharging,
    Full,
}

/// The charge of the battery.
#[derive(Clone, Copy, Debug, PartialEq, Eq, Structural)]
pub struct Snapshot {
    pub percent: u8,
    pub status: Status,
}

/// The files of a power supply, as far as they could be read.
#[derive(Debug)]
pub struct Supply {
    pub kind: Option<String>,
    pub present: Option<String>,
    pub capacity: Option<String>,
    pub charge_now: Option<String>,
    pub charge_full: Option<String>,
    pub charge_full_design: Option<String>,
    pub energy_now: Option<String>,
    pub energy_full: Option<String>,
    pub energy_full_design: Option<String>,
    pub status: Option<String>,
}

/// The number that a file holds.
pub open spec fn file_number(file: Option<String>) -> Option<int> {
    match file {
        Some(text) => parse_integer(trim(text@)),
        None => None,
    }
}

fn read_i64(file: &Option<String>) -> (r: Option<i64>)
    ensures
        file_number(*file) == (match r {
            Some(n) => Some(n as int),
            None => None,
        }),
{
    match file {
        Some(text) => {
            let v = chars(text.as_str());
            parse_signed(trim_chars(&v))
        },
        None => None,
    }
}

/// `value`, held between 0 and 100.
pub open spec fn held(value: int) -> int {
    if value < 0 {
        0
    } else if value > 100 {
        100
    } else {
        value
    }
}

/// `value`, held between 0 and 100.
pub fn percent_from_i64(value: i64) -> (r: u8)
    ensures
        r == held(value as int),
{
    if value < 0 {
        0
    } else if value > 100 {
        100
    } else {
        value as u8
    }
}

/// `value`, held to what 64 bits can express.
pub open spec fn at_most_i64(value: int) -> int {
    if value > i64::MAX {
        i64::MAX as int
    } else {
        value
    }
}

/// `now` as a part of `full` in percent, rounded.
pub open spec fn ratio(now: int, full: int) -> int {
    held(at_most_i64(at_most_i64(now * 100) + full / 2) / full)
}

/// `now` as a part of `full` in percent, where both are sound.
pub open spec fn ratio_told(now: Option<int>, full: Option<int>) -> Option<int> {
    match (now, full) {
        (Some(now), Some(full)) => if now < 0 || full <= 0 {
            None
        } else {
            Some(ratio(now, full))
        },
        _ => None,
    }
}

fn ratio_percent(now: Option<i64>, full: Option<i64>) -> (r: Option<u8>)
    ensures
        ratio_told(
            match now {
                Some(n) => Some(n as int),
                None => None,
            },
            match full {
                Some(n) => Some(n as int),
                None => None,
            },
        ) == (match r {
            Some(n) => Some(n as int),
            None => None,
        }),
{
    let (now, full) = match (now, full) {
        (Some(now), Some(full)) => (now, full),
        _ => {
            return None;
        },
    };
    if now < 0 || full <= 0 {
        return None;
    }
    let scaled: i128 = now as i128 * 100;
    let scaled: i128 = if scaled > i64::MAX as i128 {
        i64::MAX as i128
    } else {
        scaled
    };
    let total: i128 = scaled + (full / 2) as i128;
    let total: i64 = if total > i64::MAX as i128 {
        i64::MAX
    } else {
        total as i64
    };
    Some(percent_from_i64(total / full))
}

/// `first`, or else `second`.
pub open spec fn or_else(first: Option<int>, second: Option<int>) -> Option<int> {
    match first {
        Some(n) => Some(n),
        None => second,
    }
}

/// The charge that a supply tells: its capacity, or else what it holds of what it can hold.
pub open spec fn percent_told(supply: Supply) -> Option<int> {
    let capacity = match file_number(supply.capacity) {
        Some(n) => Some(held(n)),
        None => None,
    };
    or_else(
        or_else(
            capacity,
            ratio_told(
                file_number(supply.charge_now),
                or_else(
                    file_number(supply.charge_full),
                    file_number(supply.charge_full_design),
                ),
            ),
        ),
        ratio_told(
            file_number(supply.energy_now),
            or_else(file_number(supply.energy_full), file_number(supply.energy_full_design)),
        ),
    )
}

fn first_number(first: &Option<String>, second: &Option<String>) -> (r: Option<i64>)
    ensures
        or_else(file_number(*first), file_number(*second)) == (match r {
            Some(n) => Some(n as int),
            None => None,
        }),
{
    match read_i64(first) {
        Some(n) => Some(n),
        None => read_i64(second),
    }
}

/// The charge that a supply tells.
pub fn read_percent(supply: &Supply) -> (r: Option<u8>)
    ensures
        percent_told(*supply) == (match r {
            Some(n) => Some(n as int),
            None => None,
        }),
{
    if let Some(n) = read_i64(&supply.capacity) {
        return Some(percent_from_i64(n));
    }
    let charge = ratio_percent(
        read_i64(&supply.charge_now),
        first_number(&supply.charge_full, &supply.charge_full_design),
    );
    if let Some(n) = charge {
        return Some(n);
    }
    ratio_percent(
        read_i64(&supply.energy_now),
        first_number(&supply.energy_full, &supply.energy_full_design),
    )
}

/// Whether a supply is a battery.
pub open spec fn battery_told(supply: Supply) -> bool {
    supply.kind matches Some(kind) && lowered(trim(kind@)) == lowered("Battery"@)
}

/// Whether a supply is a battery.
pub fn is_battery(supply: &Supply) -> (r: bool)
    ensures
        r == battery_told(*supply),
{
    match &supply.kind {
        Some(kind) => same_text(
            lower_text(trimmed(kind.as_str()).as_str()).as_str(),
            lower_text("Battery").as_str(),
        ),
        None => false,
    }
}

/// Whether a supply is there.
pub open spec fn present_told(supply: Supply) -> bool {
    !(supply.present matches Some(present) && trim(present@) == "0"@)
}

/// Whether a supply is there.
pub fn is_present(supply: &Supply) -> (r: bool)
    ensures
        r == present_told(*supply),
{
    match &supply.present {
        Some(present) => !same_text(trimmed(present.as_str()).as_str(), "0"),
        None => true,
    }
}

/// Whether a supply is charged or drained.
pub open spec fn status_told(supply: Supply) -> Status {
    match supply.status {
        None => Status::Unknown,
        Some(text) => {
            let word = lowered(trim(text@));
            if word == "charging"@ {
                Status::Charging
            } else if word == "discharging"@ {
                Status::Discharging
            } else if word == "not charging"@ {
                Status::NotCharging
            } else if word == "full"@ {
                Status::Full
            } else {
                Status::Unknown
            }
        },
    }
}

/// Whether a supply is charged or drained.
pub fn read_status(supply: &Supply) -> (r: Status)
    ensures
        r == status_told(*supply),
{
    match &supply.status {
        None => Status::Unknown,
        Some(text) => {
            let word = lower_text(trimmed(text.as_str()).as_str());
            let word = word.as_str();
            if same_text(word, "charging") {
                Status::Charging
            } else if same_text(word, "discharging") {
                Status::Discharging
            } else if same_text(word, "not charging") {
                Status::NotCharging
            } else if same_text(word, "full") {
                Status::Full
            } else {
                Status::Unknown
            }
        },
    }
}

/// The charge of the first battery from number `i` on that is there and tells one.
pub open spec fn snapshot_from(supplies: Seq<Supply>, i: int) -> Option<Snapshot>
    decreases supplies.len() - i,
{
    if i < 0 || i >= supplies.len() {
        None
    } else {
        let supply = supplies[i];
        match percent_told(supply) {
            Some(percent) => if battery_told(supply) && present_told(supply) {
                Some(Snapshot { percent: percent as u8, status: status_told(supply) })
            } else {
                snapshot_from(supplies, i + 1)
            },
            None => snapshot_from(supplies, i + 1),
        }
    }
}

/// The charge of the first battery that is there and tells one.
pub fn read_snapshot(supplies: &[Supply]) -> (r: Option<Snapshot>)
    ensures
        r == snapshot_from(supplies@, 0),
{
    let mut i: usize = 0;
    while i < supplies.len()
        invariant
            i <= supplies@.len(),
            snapshot_from(supplies@, 0) == snapshot_from(supplies@, i as int),
        decreases supplies@.len() - i,
    {
        let supply = &supplies[i];
        if is_battery(supply) && is_present(supply) {
            if let Some(percent) = read_percent(supply) {
                return Some(Snapshot { percent, status: read_status(supply) });
            }
        }
        i += 1;
    }
    None
}

/// What the watcher sends: the charge, where it is not what was sent last.
pub fn update(last: Option<Option<Snapshot>>, current: Option<Snapshot>) -> (r: Option<
    Option<Snapshot>,
>)
    ensures
        r == (if last == Some(current) {
            None
        } else {
            Some(current)
        }),
{
    let same = match (last, current) {
        (Some(Some(a)), Some(b)) => a == b,
        (Some(None), None) => true,
        _ => false,
    };
    if same {
        None
    } else {
        Some(current)
    }
}

/// No charge lies outside of 0 to 100 percent.
pub proof fn law_charge_is_a_percentage(supplies: Seq<Supply>, i: int)
    ensures
        snapshot_from(supplies, i) matches Some(snapshot) ==> snapshot.percent <= 100,
    decreases supplies.len() - i,
{
    if 0 <= i < supplies.len() {
        law_charge_is_a_percentage(supplies, i + 1);
    }
}

/// The charge is what the driver tells in percent, where it does; otherwise it is the part of the
/// full charge that is there, in percent, rounded to the nearest; and where that is not told either,
/// the part of the full energy.
pub proof fn law_charge_is_told_in_percent(supply: Supply, now: int, full: int)
    requires
        0 <= now <= full,
        0 < full,
        now * 100 + full <= i64::MAX,
    ensures
        ({
            let told = percent_told(supply);
            let fits = |percent: int|
                percent * full <= 100 * now + full / 2 < (percent + 1) * full;
            let charge = file_number(supply.charge_now) == Some(now) && file_number(
                supply.charge_full,
            ) == Some(full);
            let energy = file_number(supply.energy_now) == Some(now) && file_number(
                supply.energy_full,
            ) == Some(full);
            &&& file_number(supply.capacity) matches Some(n) ==> told is Some && (0 <= n <= 100
                ==> told == Some(n))
            &&& file_number(supply.capacity) is None && charge ==> told is Some && fits(told->0)
            &&& file_number(supply.capacity) is None && file_number(supply.charge_now) is None
                && energy ==> told is Some && fits(told->0)
        }),
{
    let top = 100 * now + full / 2;
    let percent = top / full;
    vstd::arithmetic::div_mod::lemma_fundamental_div_mod(top, full);
    vstd::arithmetic::div_mod::lemma_mod_bound(top, full);
    assert(full * percent == percent * full) by (nonlinear_arith);
    assert((percent + 1) * full == percent * full + full) by (nonlinear_arith);
    assert(percent <= 100) by (nonlinear_arith)
        requires
            percent * full <= 100 * now + full / 2,
            now <= full,
            0 < full,
    ;
    assert(percent >= 0) by (nonlinear_arith)
        requires
            0 <= top < percent * full + full,
            0 < full,
    ;
    assert(ratio(now, full) == percent);
}

/// What is told is told of the first battery that is there and tells its charge.
pub proof fn law_first_battery_is_told_of(supplies: Seq<Supply>, i: int, j: int)
    requires
        0 <= i <= j < supplies.len(),
        percent_told(supplies[j]) is Some && battery_told(supplies[j]) && present_told(supplies[j]),
        forall|k: int|
            i <= k < j ==> !(percent_told(#[trigger] supplies[k]) is Some && battery_told(
                supplies[k],
            ) && present_told(supplies[k])),
    ensures
        snapshot_from(supplies, i) matches Some(snapshot) && snapshot.percent == percent_told(
            supplies[j],
        )->0 as u8 && snapshot.status == status_told(supplies[j]),
    decreases j - i,
{
    if i < j {
        assert(!(percent_told(supplies[i]) is Some && battery_told(supplies[i]) && present_told(
            supplies[i],
        )));
        law_first_battery_is_told_of(supplies, i + 1, j);
    }
}

/// What a battery is doing is told by its word, whatever the case of its letters and the white space
/// around it, and is unknown without one.
pub proof fn law_batteries_tell_what_they_do(supply: Supply, text: String)
    requires
        supply.status == Some(text),
    ensures
        ({
            let word = lowered(trim(text@));
            let told = status_told(supply);
            &&& told == Status::Charging <==> word == seq!['c', 'h', 'a', 'r', 'g', 'i', 'n', 'g']
            &&& told == Status::Discharging <==> word == seq![
                'd',
                'i',
                's',
                'c',
                'h',
                'a',
                'r',
                'g',
                'i',
                'n',
                'g',
            ]
            &&& told == Status::Full <==> word == seq!['f', 'u', 'l', 'l']
            &&& told == Status::NotCharging <==> word == seq!['n', 'o', 't', ' '] + seq![
                'c',
                'h',
                'a',
                'r',
                'g',
                'i',
                'n',
                'g',
            ]
        }),
{
    reveal_strlit("charging");
    reveal_strlit("discharging");
    reveal_strlit("not charging");
    reveal_strlit("full");
    assert("charging"@ =~= seq!['c', 'h', 'a', 'r', 'g', 'i', 'n', 'g']);
    assert("discharging"@ =~= seq!['d', 'i', 's', 'c', 'h', 'a', 'r', 'g', 'i', 'n', 'g']);
    assert("full"@ =~= seq!['f', 'u', 'l', 'l']);
    assert("not charging"@ =~= seq!['n', 'o', 't', ' '] + seq![
        'c',
        'h',
        'a',
        'r',
        'g',
        'i',
        'n',
        'g',
    ]);
    assert("charging"@.len() == 8 && "discharging"@.len() == 11 && "not charging"@.len() == 12
        && "full"@.len() == 4);
}

} // verus!
