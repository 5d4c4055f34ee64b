//! Temperatures, from the sensors under `/sys/class/thermal`.
use crate::collector::CollectorError;
use crate::metrics::{ThermalInfo, ThermalView, ThermalZone, ZoneView};
use crate::platform::linux;
use crate::text;
use vstd::prelude::*;

verus! {

/// The number of sensors that are looked at.
pub const MAX_ZONES: u32 = 16;

/// What the files of a sensor hold: its temperature, in thousandths of a degree, and its type;
/// nothing for a file that could not be read or is empty.
pub struct ZoneReading {
    pub temp: Option<Vec<u8>>,
    pub zone_type: Option<Vec<u8>>,
}

/// The path of a file of a sensor, with the byte that ends it for the kernel.
pub open spec fn zone_path(i: u32, file: Seq<char>) -> Seq<char> {
    "/sys/class/thermal/thermal_zone"@ + text::decimal(i as nat) + file
}

/// The path of the temperature of a sensor.
pub fn temp_path(i: u32) -> (res: String)
    ensures
        res@ == zone_path(i, "/temp\0"@),
{
    let mut path: String = "/sys/class/thermal/thermal_zone".to_owned();
    text::push_decimal(&mut path, i as u64);
    path.append("/temp\0");
    path
}

/// The path of the type of a sensor.
pub fn type_path(i: u32) -> (res: String)
    ensures
        res@ == zone_path(i, "/type\0"@),
{
    let mut path: String = "/sys/class/thermal/thermal_zone".to_owned();
    text::push_decimal(&mut path, i as u64);
    path.append("/type\0");
    path
}

/// The number of sensors that count: those before the first without a temperature, up to the
/// limit.
pub open spec fn zone_count(readings: Seq<ZoneReading>) -> int
    decreases readings.len(),
{
    if readings.len() == 0 {
        0
    } else {
        let before = zone_count(readings.drop_last());
        if before == readings.len() - 1 && before < MAX_ZONES && readings.last().temp is Some {
            before + 1
        } else {
            before
        }
    }
}

/// A sensor.
pub open spec fn zone(i: u32, reading: ZoneReading) -> ZoneView {
    ZoneView {
        name: "thermal_zone"@ + text::decimal(i as nat),
        temp_millidegrees: match reading.temp {
            Some(bytes) => linux::leading_number(bytes@),
            None => 0,
        },
        zone_type: match reading.zone_type {
            Some(bytes) => text::trimmed(text::lossy_text(bytes@)),
            None => "zone"@ + text::decimal(i as nat),
        },
    }
}

/// The sensors that count.
pub open spec fn zones(readings: Seq<ZoneReading>) -> Seq<ZoneView> {
    Seq::new(zone_count(readings) as nat, |i: int| zone(i as u32, readings[i]))
}

/// The highest temperature; zero where there is no sensor.
pub open spec fn highest(zones: Seq<ZoneView>) -> u64
    decreases zones.len(),
{
    if zones.len() == 0 {
        0
    } else {
        let before = highest(zones.drop_last());
        if before < zones.last().temp_millidegrees {
            zones.last().temp_millidegrees
        } else {
            before
        }
    }
}

/// What the sensors show.
pub open spec fn temperatures(readings: Seq<ZoneReading>) -> ThermalView {
    ThermalView {
        zones: zones(readings),
        max_temp_millidegrees: highest(zones(readings)),
    }
}

pub proof fn lemma_zone_count(readings: Seq<ZoneReading>)
    ensures
        0 <= zone_count(readings) <= readings.len(),
        zone_count(readings) <= MAX_ZONES,
        forall|i: int| 0 <= i < zone_count(readings) ==> readings[i].temp is Some,
        zone_count(readings) < readings.len() && zone_count(readings) < MAX_ZONES
            ==> readings[zone_count(readings)].temp is None,
    decreases readings.len(),
{
    if readings.len() > 0 {
        let before = readings.drop_last();
        lemma_zone_count(before);
        assert forall|i: int| 0 <= i < zone_count(readings) implies readings[i].temp is Some by {
            if i < zone_count(before) {
                assert(before[i] == readings[i]);
            }
        }
        if zone_count(before) < before.len() {
            assert(before[zone_count(before)] == readings[zone_count(before)]);
        }
    }
}

proof fn lemma_zone_count_is(readings: Seq<ZoneReading>, n: int)
    requires
        0 <= n <= readings.len(),
        n <= MAX_ZONES,
        forall|i: int| 0 <= i < n ==> readings[i].temp is Some,
        n < readings.len() && n < MAX_ZONES ==> readings[n].temp is None,
    ensures
        zone_count(readings) == n,
{
    lemma_zone_count(readings);
    let c = zone_count(readings);
    if c < n {
        assert(readings[c].temp is Some);
    }
    if n < c {
        assert(readings[n].temp is Some);
    }
}

/// Reads the temperature sensors.
pub struct ThermalCollector;

impl ThermalCollector {
    /// A collector; it keeps nothing between collections.
    pub fn new() -> (res: Self)
        ensures
            res == ThermalCollector,
    {
        ThermalCollector
    }

    /// What the sensors show. This never fails.
    pub fn collect(&self, readings: &Vec<ZoneReading>) -> (res: Result<ThermalInfo, CollectorError>)
        ensures
            res matches Ok(info) && info@ == temperatures(readings@),
    {
        let mut list: Vec<ThermalZone> = Vec::new();
        let mut max_temp: u64 = 0;
        let mut i: usize = 0;
        let mut stop: bool = false;
        let ghost views = Seq::<ZoneView>::empty();
        while !stop && i < readings.len() && i < MAX_ZONES as usize
            invariant
                0 <= i <= readings@.len(),
                i <= MAX_ZONES,
                list@.len() == i,
                views.len() == i,
                forall|j: int| 0 <= j < i ==> (#[trigger] list@[j])@ == views[j],
                forall|j: int| 0 <= j < i ==> #[trigger] views[j] == zone(j as u32, readings@[j]),
                forall|j: int| 0 <= j < i ==> (#[trigger] readings@[j]).temp is Some,
                stop ==> i < readings@.len() && readings@[i as int].temp is None,
                max_temp == highest(views),
            decreases
                readings@.len() - i + (if stop {
                    0int
                } else {
                    1int
                }),
        {
            match &readings[i].temp {
                Some(bytes) => {
                    let temp: u64 = linux::parse_u64_from_bytes(bytes.as_slice());
                    let zone_type: String = match &readings[i].zone_type {
                        Some(bytes) => text::trim(
                            text::from_utf8_lossy(bytes.as_slice()).as_str(),
                        ),
                        None => {
                            let mut s: String = "zone".to_owned();
                            text::push_decimal(&mut s, i as u64);
                            s
                        },
                    };
                    let mut name: String = "thermal_zone".to_owned();
                    text::push_decimal(&mut name, i as u64);
                    let z = ThermalZone { name, temp_millidegrees: temp, zone_type };
                    if max_temp < temp {
                        max_temp = temp;
                    }
                    proof {
                        assert(z@ == zone(i as u32, readings@[i as int]));
                        let more = views.push(z@);
                        assert(more.drop_last() =~= views);
                        views = more;
                    }
                    list.push(z);
                    i = i + 1;
                },
                None => {
                    stop = true;
                },
            }
        }
        let info = ThermalInfo { zones: list, max_temp_millidegrees: max_temp };
        proof {
            lemma_zone_count_is(readings@, i as int);
            assert(views =~= zones(readings@));
            assert(info@.zones =~= views);
        }
        Ok(info)
    }
}

/// The highest temperature is that of some sensor, and no sensor shows more.
pub proof fn highest_is_a_bound(zones: Seq<ZoneView>)
    ensures
        forall|i: int|
            0 <= i < zones.len() ==> (#[trigger] zones[i]).temp_millidegrees <= highest(zones),
        zones.len() > 0 ==> exists|i: int|
            0 <= i < zones.len() && (#[trigger] zones[i]).temp_millidegrees == highest(zones),
    decreases zones.len(),
{
    if zones.len() > 0 {
        let before = zones.drop_last();
        highest_is_a_bound(before);
        assert forall|i: int| 0 <= i < zones.len() implies (#[trigger] zones[i]).temp_millidegrees
            <= highest(zones) by {
            if i < before.len() {
                assert(before[i] == zones[i]);
            }
        }
        assert(before.len() == 0 ==> highest(before) == 0);
        if highest(zones) == zones.last().temp_millidegrees {
            assert(zones[zones.len() - 1].temp_millidegrees == highest(zones));
        } else {
            let i = choose|i: int|
                0 <= i < before.len() && (#[trigger] before[i]).temp_millidegrees == highest(
                    before,
                );
            assert(zones[i] == before[i]);
        }
    }
}

/// The sensors that count are those up to the first that shows no temperature, sixteen at most.
/// Each shows its own temperature in thousandths of a degree, and its own name and type; the highest
/// temperature is the greatest of theirs.
pub proof fn sensors_show_their_own_temperature(readings: Seq<ZoneReading>, i: int)
    requires
        0 <= i < readings.len(),
        i < 16,
        forall|j: int| 0 <= j <= i ==> (#[trigger] readings[j]).temp is Some,
    ensures
        ({
            let t = temperatures(readings);
            &&& i < t.zones.len() <= 16
            &&& t.zones.len() <= readings.len()
            &&& t.zones[i].name == "thermal_zone"@ + text::decimal(i as nat)
            &&& t.zones[i].temp_millidegrees == linux::leading_number(readings[i].temp->0@)
            &&& readings[i].zone_type matches Some(kind) ==> t.zones[i].zone_type
                == text::trimmed(text::lossy_text(kind@))
            &&& readings[i].zone_type is None ==> t.zones[i].zone_type == "zone"@ + text::decimal(
                i as nat,
            )
            &&& t.zones[i].temp_millidegrees <= t.max_temp_millidegrees
            &&& exists|k: int|
                0 <= k < t.zones.len() && (#[trigger] t.zones[k]).temp_millidegrees
                    == t.max_temp_millidegrees
        }),
{
    lemma_zone_count(readings);
    let n = zone_count(readings);
    assert(n > i) by {
        if n <= i {
            assert(readings[n].temp is Some);
        }
    }
    highest_is_a_bound(zones(readings));
}

/// No sensor behind the first that shows no temperature counts, and without sensors the highest
/// temperature is zero.
pub proof fn sensors_end_at_the_first_gap(readings: Seq<ZoneReading>, i: int)
    requires
        0 <= i < readings.len(),
        readings[i].temp is None,
    ensures
        temperatures(readings).zones.len() <= i,
        i == 0 ==> temperatures(readings).max_temp_millidegrees == 0,
{
    lemma_zone_count(readings);
    if zone_count(readings) > i {
        assert(readings[i].temp is Some);
    }
    assert(zones(readings).len() == zone_count(readings));
}

} // verus!
