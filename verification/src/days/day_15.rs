use crate::pattern::{captures, count_groups, group, group_count, group_text, group_texts, regex_captures};
use crate::text::{
    chars_of, decimal, labelled_number, lines, lines_of, parse_i64, parse_u64, parse_within, rows,
    string_of, trim, trimmed,
};
use vstd::prelude::*;

verus! {

pub struct DayFifteen;

/// A sensor, the beacon nearest to it, and the distance between them, steps
/// along both axes added up.
pub struct Sensor {
    sensor: (i32, i32),
    nearest_beacon: (i32, i32),
    distance: u32,
}

/// Sensors with the row that is asked about and the greatest coordinate of
/// the square that is searched.
pub struct Survey {
    sensors: Vec<Sensor>,
    line_to_search: i32,
    extent: u32,
}

/// `x` fits in 32 bits with a sign.
pub open spec fn fits(x: int) -> bool {
    i32::MIN <= x <= i32::MAX
}

/// The absolute value of `x`.
pub open spec fn abs(x: int) -> int {
    if x < 0 {
        -x
    } else {
        x
    }
}

/// The distance between two positions; `None` where a difference of
/// coordinates or its absolute value leaves the range of 32 bits.
pub open spec fn distance_between(a: (i32, i32), b: (i32, i32)) -> Option<int> {
    if i32::MIN < a.0 - b.0 <= i32::MAX && i32::MIN < a.1 - b.1 <= i32::MAX {
        Some(abs(a.0 - b.0) + abs(a.1 - b.1))
    } else {
        None
    }
}

/// What is known of a sensor: its position, its beacon, and their distance.
pub struct Reading {
    pub sensor: (i32, i32),
    pub beacon: (i32, i32),
    pub distance: int,
}

impl View for Sensor {
    type V = Reading;

    closed spec fn view(&self) -> Reading {
        Reading {
            sensor: self.sensor,
            beacon: self.nearest_beacon,
            distance: self.distance as int,
        }
    }
}

/// The stretch of row `y` on which a reading rules out a beacon, from its
/// first to its last position: the positions no farther from the sensor
/// than its beacon, without the beacon itself, cut down to the positions
/// from 0 to `extent` where an extent is given. The inner `None` says that
/// the sensor does not reach the row; the outer that a number leaves the
/// range of 32 bits on the way, or that the beacon is not as far from the
/// sensor as it is said to be.
pub open spec fn ruled_out(r: Reading, y: int, extent: Option<int>) -> Option<Option<(int, int)>> {
    let dy = y - r.sensor.1;
    if !(i32::MIN < dy <= i32::MAX) {
        None
    } else if abs(dy) > r.distance {
        Some(None)
    } else {
        let reach = r.distance - abs(dy);
        let lo = r.sensor.0 - reach;
        let hi = r.sensor.0 + reach;
        if reach > i32::MAX || !fits(lo) || !fits(hi) {
            None
        } else {
            let cut: Option<(int, int)> = if r.beacon.1 == y {
                if r.beacon.0 == lo {
                    if fits(lo + 1) {
                        Some((lo + 1, hi))
                    } else {
                        None
                    }
                } else if r.beacon.0 == hi {
                    if fits(hi - 1) {
                        Some((lo, hi - 1))
                    } else {
                        None
                    }
                } else {
                    None
                }
            } else {
                Some((lo, hi))
            };
            match (cut, extent) {
                (None, _) => None,
                (Some(c), None) => Some(Some(c)),
                (Some(c), Some(e)) => if e <= i32::MAX {
                    Some(
                        Some(
                            (
                                if c.0 < 0 {
                                    0
                                } else {
                                    c.0
                                },
                                if e < c.1 {
                                    e
                                } else {
                                    c.1
                                },
                            ),
                        ),
                    )
                } else {
                    None
                },
            }
        }
    }
}

/// The stretch as integers.
pub open spec fn span(r: (i32, i32)) -> (int, int) {
    (r.0 as int, r.1 as int)
}

impl Sensor {
    /// The stretch of row `y` on which this sensor rules out a beacon.
    pub fn try_range(&self, y: i32, extent: Option<u32>) -> (r: Option<Option<(i32, i32)>>)
        ensures
            match r {
                Some(Some(x)) => ruled_out(self@, y as int, extent_of(extent)) == Some(Some(span(x))),
                Some(None) => ruled_out(self@, y as int, extent_of(extent)) == Some(
                    None::<(int, int)>,
                ),
                None => ruled_out(self@, y as int, extent_of(extent)) is None,
            },
    {
        let dy: i64 = y as i64 - self.sensor.1 as i64;
        if !(dy > -0x8000_0000 && dy <= 0x7fff_ffff) {
            return None;
        }
        let y_diff: i64 = if dy < 0 {
            -dy
        } else {
            dy
        };
        if y_diff > self.distance as i64 {
            return Some(None);
        }
        let x_range: i64 = self.distance as i64 - y_diff;
        let lo: i64 = self.sensor.0 as i64 - x_range;
        let hi: i64 = self.sensor.0 as i64 + x_range;
        if x_range > 0x7fff_ffff || lo < -0x8000_0000 || lo > 0x7fff_ffff || hi < -0x8000_0000 || hi
            > 0x7fff_ffff {
            return None;
        }
        let mut not_possible: (i64, i64) = (lo, hi);
        if self.nearest_beacon.1 == y {
            if self.nearest_beacon.0 as i64 == lo {
                if lo + 1 > 0x7fff_ffff {
                    return None;
                }
                not_possible = (lo + 1, hi);
            } else if self.nearest_beacon.0 as i64 == hi {
                if hi - 1 < -0x8000_0000 {
                    return None;
                }
                not_possible = (lo, hi - 1);
            } else {
                return None;
            }
        }
        if let Some(x) = extent {
            if x > 0x7fff_ffff {
                return None;
            }
            not_possible =
            (
                if not_possible.0 < 0 {
                    0
                } else {
                    not_possible.0
                },
                if (x as i64) < not_possible.1 {
                    x as i64
                } else {
                    not_possible.1
                },
            );
        }
        Some(Some((not_possible.0 as i32, not_possible.1 as i32)))
    }

    /// The stretch of row `y` on which this sensor rules out a beacon;
    /// `None` where it does not reach the row.
    pub fn get_x_not_possible_range(&self, y: i32, extent: Option<u32>) -> (r: Option<(i32, i32)>)
        requires
            ruled_out(self@, y as int, extent_of(extent)) is Some,
        ensures
            ruled_out(self@, y as int, extent_of(extent)) == Some(
                match r {
                    Some(x) => Some(span(x)),
                    None => None,
                },
            ),
    {
        self.try_range(y, extent).unwrap()
    }

    /// A sensor with its beacon; `None` where their distance cannot be
    /// worked out in 32 bits.
    pub fn try_new(sensor: (i32, i32), nearest_beacon: (i32, i32)) -> (r: Option<Sensor>)
        ensures
            match r {
                Some(s) => distance_between(sensor, nearest_beacon) == Some(s@.distance) && s@.sensor
                    == sensor && s@.beacon == nearest_beacon,
                None => distance_between(sensor, nearest_beacon) is None,
            },
    {
        let dx: i64 = sensor.0 as i64 - nearest_beacon.0 as i64;
        let dy: i64 = sensor.1 as i64 - nearest_beacon.1 as i64;
        if !(dx > -0x8000_0000 && dx <= 0x7fff_ffff && dy > -0x8000_0000 && dy <= 0x7fff_ffff) {
            return None;
        }
        let ax = if dx < 0 {
            -dx
        } else {
            dx
        };
        let ay = if dy < 0 {
            -dy
        } else {
            dy
        };
        Some(Sensor { sensor, nearest_beacon, distance: (ax + ay) as u32 })
    }

    /// A sensor with its beacon.
    pub fn new(sensor: (i32, i32), nearest_beacon: (i32, i32)) -> (s: Sensor)
        requires
            distance_between(sensor, nearest_beacon) is Some,
        ensures
            distance_between(sensor, nearest_beacon) == Some(s@.distance),
            s@.sensor == sensor,
            s@.beacon == nearest_beacon,
    {
        Sensor::try_new(sensor, nearest_beacon).unwrap()
    }
}

/// The extent as an integer.
pub open spec fn extent_of(extent: Option<u32>) -> Option<int> {
    match extent {
        Some(e) => Some(e as int),
        None => None,
    }
}

/// The stretches with `e` put behind the last stretch that does not begin
/// after it.
pub open spec fn put_in_order(s: Seq<(int, int)>, e: (int, int)) -> Seq<(int, int)>
    decreases s.len(),
{
    if s.len() == 0 {
        seq![e]
    } else if s.last().0 <= e.0 {
        s.push(e)
    } else {
        put_in_order(s.drop_last(), e).push(s.last())
    }
}

/// The stretches in the order of their beginnings, those with the same
/// beginning in the order in which they came.
pub open spec fn in_order(s: Seq<(int, int)>) -> Seq<(int, int)>
    decreases s.len(),
{
    if s.len() == 0 {
        Seq::empty()
    } else {
        put_in_order(in_order(s.drop_last()), s.last())
    }
}

/// The stretches joined wherever one begins no later than one after the end
/// of the one before it; the stretches are taken to be in order. `None`
/// where there are none, or where one after an end leaves the range of 32
/// bits.
pub open spec fn joined(s: Seq<(int, int)>) -> Option<Seq<(int, int)>>
    decreases s.len(),
{
    if s.len() == 0 {
        None
    } else if s.len() == 1 {
        Some(seq![s[0]])
    } else {
        match joined(s.drop_last()) {
            None => None,
            Some(m) => if m.len() == 0 || !fits(m.last().1 + 1) {
                None
            } else if s.last().0 <= m.last().1 + 1 {
                Some(
                    m.drop_last().push(
                        (
                            m.last().0,
                            if m.last().1 >= s.last().1 {
                                m.last().1
                            } else {
                                s.last().1
                            },
                        ),
                    ),
                )
            } else {
                Some(m.push(s.last()))
            },
        }
    }
}

/// The stretches as integers.
pub open spec fn spans(v: Seq<(i32, i32)>) -> Seq<(int, int)> {
    Seq::new(v.len(), |i: int| span(v[i]))
}

/// Puts the stretches in the order of their beginnings.
fn sort_by_start(ranges: &mut Vec<(i32, i32)>)
    ensures
        spans(final(ranges)@) == in_order(spans(old(ranges)@)),
{
    let mut out: Vec<(i32, i32)> = Vec::new();
    let mut i: usize = 0;
    let ghost all = spans(ranges@);
    assert(all.take(0) =~= Seq::<(int, int)>::empty());
    assert(spans(out@) =~= Seq::<(int, int)>::empty());
    while i < ranges.len()
        invariant
            i <= ranges.len(),
            all == spans(ranges@),
            spans(out@) == in_order(all.take(i as int)),
        decreases ranges.len() - i,
    {
        let e = ranges[i];
        proof {
            assert(all.take(i + 1).drop_last() =~= all.take(i as int));
            assert(all.take(i + 1).last() == span(e));
        }
        let mut at: usize = out.len();
        let ghost sorted = spans(out@);
        assert(sorted.take(at as int) =~= sorted);
        while at > 0 && out[at - 1].0 > e.0
            invariant
                at <= out.len(),
                sorted == spans(out@),
                put_in_order(sorted, span(e)) == put_in_order(sorted.take(at as int), span(e))
                    + sorted.skip(at as int),
            decreases at,
        {
            proof {
                let head = sorted.take(at as int);
                assert(head.last() == sorted[at - 1]);
                assert(head.drop_last() =~= sorted.take(at - 1));
                assert(put_in_order(head, span(e)) == put_in_order(head.drop_last(), span(e)).push(
                    head.last(),
                ));
                assert(put_in_order(head.drop_last(), span(e)).push(head.last()) + sorted.skip(
                    at as int,
                ) =~= put_in_order(sorted.take(at - 1), span(e)) + sorted.skip(at - 1));
            }
            at -= 1;
        }
        proof {
            let head = sorted.take(at as int);
            if at > 0 {
                assert(head.last() == sorted[at - 1]);
            }
            assert(put_in_order(head, span(e)) == head.push(span(e)));
        }
        out.insert(at, e);
        proof {
            assert(spans(out@) =~= sorted.take(at as int).push(span(e)) + sorted.skip(at as int));
        }
        i += 1;
    }
    assert(all.take(i as int) =~= all);
    *ranges = out;
}

/// Puts the stretches in order and joins those that touch or overlap;
/// `None` where there are none or a number leaves the range of 32 bits.
fn merge_ranges(ranges: &mut Vec<(i32, i32)>) -> (r: Option<Vec<(i32, i32)>>)
    ensures
        match r {
            Some(m) => joined(in_order(spans(old(ranges)@))) == Some(spans(m@)),
            None => joined(in_order(spans(old(ranges)@))) is None,
        },
{
    sort_by_start(ranges);
    if ranges.len() == 0 {
        return None;
    }
    let ghost s = spans(ranges@);
    let mut merged: Vec<(i32, i32)> = Vec::new();
    merged.push(ranges[0]);
    let mut i: usize = 1;
    proof {
        assert(s.take(1).len() == 1);
        assert(s.take(1)[0] == s[0]);
        assert(spans(merged@) =~= seq![s[0]]);
    }
    while i < ranges.len()
        invariant
            1 <= i <= ranges.len(),
            s == spans(ranges@),
            s == in_order(spans(old(ranges)@)),
            joined(s.take(i as int)) == Some(spans(merged@)),
            merged.len() >= 1,
        decreases ranges.len() - i,
    {
        let (c, d) = ranges[i];
        let ghost before = spans(merged@);
        proof {
            assert(s.take(i + 1).drop_last() =~= s.take(i as int));
            assert(s.take(i + 1).last() == span((c, d)));
            assert(before.last() == span(merged@[merged.len() - 1]));
        }
        let (a, b) = merged.pop().unwrap();
        if b == i32::MAX {
            proof {
                assert(before.last().1 + 1 > i32::MAX);
                assert(joined(s.take(i + 1)) is None);
                lemma_joined_none(s, i + 1);
            }
            return None;
        }
        if c <= b + 1 {
            merged.push(
                (
                    a,
                    if b >= d {
                        b
                    } else {
                        d
                    },
                ),
            );
            assert(spans(merged@) =~= before.drop_last().push(
                (
                    a as int,
                    if b >= d {
                        b as int
                    } else {
                        d as int
                    },
                ),
            ));
        } else {
            merged.push((a, b));
            merged.push((c, d));
            assert(spans(merged@) =~= before.push(span((c, d))));
        }
        i += 1;
    }
    assert(s.take(i as int) =~= s);
    Some(merged)
}

/// Once the stretches cannot be joined up to a place, they cannot be joined
/// at all.
proof fn lemma_joined_none(s: Seq<(int, int)>, k: int)
    requires
        1 <= k <= s.len(),
        joined(s.take(k)) is None,
    ensures
        joined(s) is None,
    decreases s.len() - k,
{
    if k < s.len() {
        assert(s.take(k + 1).drop_last() =~= s.take(k));
        lemma_joined_none(s, k + 1);
    } else {
        assert(s.take(k) =~= s);
    }
}

/// The stretches of row `y` on which the readings rule out a beacon, in the
/// order of the readings; `None` where one of them cannot be worked out.
pub open spec fn stretches_on(rs: Seq<Reading>, y: int, extent: Option<int>) -> Option<Seq<(int, int)>>
    decreases rs.len(),
{
    if rs.len() == 0 {
        Some(Seq::empty())
    } else {
        match (stretches_on(rs.drop_last(), y, extent), ruled_out(rs.last(), y, extent)) {
            (Some(s), Some(Some(x))) => Some(s.push(x)),
            (Some(s), Some(None)) => Some(s),
            _ => None,
        }
    }
}

/// The stretches of row `y` on which a beacon is ruled out, in order and
/// joined.
pub open spec fn merged_on(rs: Seq<Reading>, y: int, extent: Option<int>) -> Option<Seq<(int, int)>> {
    match stretches_on(rs, y, extent) {
        Some(s) => joined(in_order(s)),
        None => None,
    }
}

/// The number of positions of the stretches; `None` where a length or the
/// sum leaves the range of 32 bits, or where a stretch ends more than one
/// before its beginning.
pub open spec fn positions_in(m: Seq<(int, int)>) -> Option<int>
    decreases m.len(),
{
    if m.len() == 0 {
        Some(0)
    } else {
        let length = m.last().1 - m.last().0 + 1;
        match positions_in(m.drop_last()) {
            Some(total) => if fits(length - 1) && 0 <= length <= i32::MAX && total + length
                <= u32::MAX {
                Some(total + length)
            } else {
                None
            },
            None => None,
        }
    }
}

/// Neither a sensor nor a beacon of the readings is at `c`.
pub open spec fn is_free(rs: Seq<Reading>, c: (int, int)) -> bool {
    forall|i: int|
        0 <= i < rs.len() ==> span((#[trigger] rs[i]).sensor) != c && span(rs[i].beacon) != c
}

/// The first position, looked for row by row from row `y` to row `extent`,
/// behind the first of two stretches of a row that is free of sensors and
/// beacons. `None` where there is none, a row cannot be worked out, or a row
/// has no stretch or more than two.
pub open spec fn distress_from(rs: Seq<Reading>, extent: int, y: int) -> Option<(int, int)>
    decreases extent + 1 - y,
{
    if y > extent || y < 0 {
        None
    } else {
        match merged_on(rs, y, Some(extent)) {
            None => None,
            Some(m) => if m.len() == 1 {
                distress_from(rs, extent, y + 1)
            } else if m.len() == 2 && fits(m[0].1 + 1) {
                if is_free(rs, (m[0].1 + 1, y)) {
                    Some((m[0].1 + 1, y))
                } else {
                    distress_from(rs, extent, y + 1)
                }
            } else {
                None
            },
        }
    }
}

/// With an extent beyond 32 bits no row can be worked out.
proof fn lemma_extent_too_great(rs: Seq<Reading>, y: int, extent: int)
    requires
        extent > i32::MAX,
    ensures
        merged_on(rs, y, Some(extent)) is None,
{
    lemma_no_stretch(rs, y, extent);
}

/// With an extent beyond 32 bits no reading gives a stretch.
proof fn lemma_no_stretch(rs: Seq<Reading>, y: int, extent: int)
    requires
        extent > i32::MAX,
    ensures
        stretches_on(rs, y, Some(extent)) is None || stretches_on(rs, y, Some(extent)) == Some(
            Seq::<(int, int)>::empty(),
        ),
    decreases rs.len(),
{
    if rs.len() > 0 {
        lemma_no_stretch(rs.drop_last(), y, extent);
    }
}

impl Survey {
    /// The readings of the sensors.
    pub closed spec fn readings(self) -> Seq<Reading> {
        Seq::new(self.sensors@.len(), |i: int| self.sensors@[i]@)
    }

    /// The row that is asked about.
    pub closed spec fn row(self) -> int {
        self.line_to_search as int
    }

    /// The greatest coordinate of the square that is searched.
    pub closed spec fn reach(self) -> int {
        self.extent as int
    }

    /// The stretches of row `y` on which a beacon is ruled out, in order and
    /// joined; `None` where they cannot be worked out.
    pub fn try_merged_ranges(&self, y: i32, extent: Option<u32>) -> (r: Option<Vec<(i32, i32)>>)
        ensures
            match r {
                Some(m) => merged_on(self.readings(), y as int, extent_of(extent)) == Some(
                    spans(m@),
                ),
                None => merged_on(self.readings(), y as int, extent_of(extent)) is None,
            },
    {
        let ghost rs = self.readings();
        let mut not_possible_ranges: Vec<(i32, i32)> = Vec::new();
        let mut i: usize = 0;
        assert(rs.take(0) =~= Seq::<Reading>::empty());
        assert(spans(not_possible_ranges@) =~= Seq::<(int, int)>::empty());
        while i < self.sensors.len()
            invariant
                i <= self.sensors.len(),
                rs == self.readings(),
                stretches_on(rs.take(i as int), y as int, extent_of(extent)) == Some(
                    spans(not_possible_ranges@),
                ),
            decreases self.sensors.len() - i,
        {
            proof {
                assert(rs.take(i + 1).drop_last() =~= rs.take(i as int));
                assert(rs.take(i + 1).last() == self.sensors@[i as int]@);
            }
            let ghost before = spans(not_possible_ranges@);
            match self.sensors[i].try_range(y, extent) {
                None => {
                    proof {
                        lemma_stretches_none(rs, y as int, extent_of(extent), i + 1);
                    }
                    return None;
                },
                Some(None) => {},
                Some(Some(x)) => {
                    not_possible_ranges.push(x);
                    assert(spans(not_possible_ranges@) =~= before.push(span(x)));
                },
            }
            i += 1;
        }
        assert(rs.take(i as int) =~= rs);
        merge_ranges(&mut not_possible_ranges)
    }

    /// The stretches of row `y` on which a beacon is ruled out, in order and
    /// joined.
    pub fn get_merged_ranges(&self, y: i32, extent: Option<u32>) -> (m: Vec<(i32, i32)>)
        requires
            merged_on(self.readings(), y as int, extent_of(extent)) is Some,
        ensures
            merged_on(self.readings(), y as int, extent_of(extent)) == Some(spans(m@)),
    {
        self.try_merged_ranges(y, extent).unwrap()
    }

    /// The number of positions of the row asked about on which a beacon is
    /// ruled out; `None` where it cannot be worked out.
    pub open spec fn ruled_out_count(self) -> Option<int> {
        match merged_on(self.readings(), self.row(), None) {
            Some(m) => positions_in(m),
            None => None,
        }
    }

    /// The number of positions of the row asked about on which a beacon is
    /// ruled out; `None` where it cannot be worked out.
    pub fn try_count(&self) -> (r: Option<u32>)
        ensures
            match r {
                Some(n) => self.ruled_out_count() == Some(n as int),
                None => self.ruled_out_count() is None,
            },
    {
        let merged_ranges = match self.try_merged_ranges(self.line_to_search, None) {
            None => {
                return None;
            },
            Some(m) => m,
        };
        let ghost m = spans(merged_ranges@);
        let mut total: u32 = 0;
        let mut i: usize = 0;
        assert(m.take(0) =~= Seq::<(int, int)>::empty());
        while i < merged_ranges.len()
            invariant
                i <= merged_ranges.len(),
                m == spans(merged_ranges@),
                merged_on(self.readings(), self.row(), None) == Some(m),
                positions_in(m.take(i as int)) == Some(total as int),
            decreases merged_ranges.len() - i,
        {
            let (range_from, range_to) = merged_ranges[i];
            proof {
                assert(m.take(i + 1).drop_last() =~= m.take(i as int));
                assert(m.take(i + 1).last() == span((range_from, range_to)));
            }
            let length: i64 = range_to as i64 - range_from as i64 + 1;
            if length - 1 < -0x8000_0000 || length - 1 > 0x7fff_ffff || length < 0 || length
                > 0x7fff_ffff || total as i64 + length > 0xffff_ffff {
                proof {
                    assert(positions_in(m.take(i + 1)) is None);
                    lemma_positions_none(m, i + 1);
                }
                return None;
            }
            total = total + length as u32;
            i += 1;
        }
        assert(m.take(i as int) =~= m);
        Some(total)
    }

    /// The number of positions of the row asked about on which a beacon is
    /// ruled out.
    pub fn count_beacons_not_possible(&self) -> (n: u32)
        requires
            self.ruled_out_count() is Some,
        ensures
            self.ruled_out_count() == Some(n as int),
    {
        self.try_count().unwrap()
    }

    /// Whether neither a sensor nor a beacon is at `coord`.
    pub fn not_a_beacon_or_sensor(&self, coord: (i32, i32)) -> (b: bool)
        ensures
            b == is_free(self.readings(), span(coord)),
    {
        let mut i: usize = 0;
        while i < self.sensors.len()
            invariant
                i <= self.sensors.len(),
                forall|k: int|
                    0 <= k < i ==> span((#[trigger] self.readings()[k]).sensor) != span(coord)
                        && span(self.readings()[k].beacon) != span(coord),
            decreases self.sensors.len() - i,
        {
            let s = &self.sensors[i];
            assert(self.readings()[i as int] == s@);
            if (s.sensor.0 == coord.0 && s.sensor.1 == coord.1) || (s.nearest_beacon.0 == coord.0
                && s.nearest_beacon.1 == coord.1) {
                return false;
            }
            i += 1;
        }
        true
    }

    /// The position of the beacon in distress; `None` where there is none or
    /// a row cannot be worked out.
    pub fn try_distress_beacon(&self) -> (r: Option<(i32, i32)>)
        ensures
            match r {
                Some(c) => distress_from(self.readings(), self.reach(), 0) == Some(span(c)),
                None => distress_from(self.readings(), self.reach(), 0) is None,
            },
    {
        let ghost rs = self.readings();
        if self.extent > 0x7fff_ffff {
            proof {
                lemma_extent_too_great(rs, 0, self.reach());
            }
            return None;
        }
        let mut y: u32 = 0;
        while y < self.extent + 1
            invariant
                y <= self.extent + 1,
                self.extent <= i32::MAX,
                rs == self.readings(),
                distress_from(rs, self.reach(), 0) == distress_from(rs, self.reach(), y as int),
            decreases self.extent + 1 - y,
        {
            let not_poss = match self.try_merged_ranges(y as i32, Some(self.extent)) {
                None => {
                    return None;
                },
                Some(m) => m,
            };
            assert(spans(not_poss@).len() == not_poss.len());
            if not_poss.len() == 1 {
                y += 1;
                continue ;
            }
            if not_poss.len() != 2 || not_poss[0].1 == i32::MAX {
                assert(spans(not_poss@)[0] == span(not_poss@[0]));
                return None;
            }
            assert(spans(not_poss@)[0] == span(not_poss@[0]));
            let poss_coord = (not_poss[0].1 + 1, y as i32);
            if self.not_a_beacon_or_sensor(poss_coord) {
                return Some(poss_coord);
            }
            y += 1;
        }
        None
    }

    /// The position of the beacon in distress.
    pub fn get_distress_beacon(&mut self) -> (c: (i32, i32))
        requires
            distress_from(old(self).readings(), old(self).reach(), 0) is Some,
        ensures
            *final(self) == *old(self),
            distress_from(old(self).readings(), old(self).reach(), 0) == Some(span(c)),
    {
        self.try_distress_beacon().unwrap()
    }
}

/// Once the stretches cannot be worked out up to a reading, they cannot be
/// worked out at all.
proof fn lemma_stretches_none(rs: Seq<Reading>, y: int, extent: Option<int>, k: int)
    requires
        1 <= k <= rs.len(),
        stretches_on(rs.take(k), y, extent) is None,
    ensures
        stretches_on(rs, y, extent) is None,
    decreases rs.len() - k,
{
    if k < rs.len() {
        assert(rs.take(k + 1).drop_last() =~= rs.take(k));
        lemma_stretches_none(rs, y, extent, k + 1);
    } else {
        assert(rs.take(k) =~= rs);
    }
}

/// Once the positions cannot be counted up to a stretch, they cannot be
/// counted at all.
proof fn lemma_positions_none(m: Seq<(int, int)>, k: int)
    requires
        1 <= k <= m.len(),
        positions_in(m.take(k)) is None,
    ensures
        positions_in(m) is None,
    decreases m.len() - k,
{
    if k < m.len() {
        assert(m.take(k + 1).drop_last() =~= m.take(k));
        lemma_positions_none(m, k + 1);
    } else {
        assert(m.take(k) =~= m);
    }
}

/// The regular expression of a reading: the position of a sensor and that
/// of the beacon nearest to it.
pub open spec fn sensor_pattern() -> Seq<char> {
    r"^Sensor\sat\sx=(?P<x_sensor>[\-0-9]+),\sy=(?P<y_sensor>[\-0-9]+):\sclosest beacon\sis\sat\sx=(?P<x_beacon>[\-0-9]+),\sy=(?P<y_beacon>[\-0-9]+)$"@
}

/// The number of 32 bits that `text` writes.
pub open spec fn coordinate(text: Option<Seq<char>>) -> Option<i32> {
    match text {
        Some(t) => match parse_within(t, true, i32::MIN as int, i32::MAX as int) {
            Some(x) => Some(x as i32),
            None => None,
        },
        None => None,
    }
}

/// The reading that the capture groups of a match write; `None` where there
/// is no match, a group writes no number of 32 bits, or the distance of the
/// two positions cannot be worked out.
pub open spec fn reading_of(groups: Option<Seq<Option<Seq<char>>>>) -> Option<Reading> {
    if group_count(groups) == 5 {
        match (
            coordinate(group_text(groups, 1)),
            coordinate(group_text(groups, 2)),
            coordinate(group_text(groups, 3)),
            coordinate(group_text(groups, 4)),
        ) {
            (Some(xs), Some(ys), Some(xb), Some(yb)) => match distance_between((xs, ys), (xb, yb)) {
                Some(d) => Some(Reading { sensor: (xs, ys), beacon: (xb, yb), distance: d }),
                None => None,
            },
            _ => None,
        }
    } else {
        None
    }
}

/// The reading that `line` writes, white space around it aside.
pub open spec fn reading_in(line: Seq<char>) -> Option<Reading> {
    reading_of(regex_captures(sensor_pattern(), trimmed(line)))
}

/// What `input` writes: the row asked about in its first line, the extent in
/// its second, and a reading in every other.
pub open spec fn is_survey(input: Seq<char>) -> bool {
    let ls = lines(input);
    &&& ls.len() >= 2
    &&& parse_within(ls[0], true, i32::MIN as int, i32::MAX as int) is Some
    &&& parse_within(ls[1], false, 0, u32::MAX as int) is Some
    &&& forall|i: int| 2 <= i < ls.len() ==> reading_in(#[trigger] ls[i]) is Some
}

/// The readings that `input` writes.
pub open spec fn readings_of(input: Seq<char>) -> Seq<Reading> {
    Seq::new((lines(input).len() - 2) as nat, |i: int| reading_in(lines(input)[i + 2])->0)
}

/// Parses a number of 32 bits.
fn read_coordinate(text: &Option<Vec<char>>) -> (r: Option<i32>)
    ensures
        r == coordinate(
            match *text {
                Some(t) => Some(t@),
                None => None,
            },
        ),
{
    match text {
        None => None,
        Some(t) => match parse_i64(t) {
            None => None,
            Some(x) => if -0x8000_0000 <= x && x <= 0x7fff_ffff {
                Some(x as i32)
            } else {
                None
            },
        },
    }
}

impl Sensor {
    /// The sensor that the capture groups of a match describe.
    pub fn from_captures(groups: &Option<Vec<Option<String>>>) -> (r: Option<Sensor>)
        ensures
            match r {
                Some(s) => reading_of(group_texts(*groups)) == Some(s@),
                None => reading_of(group_texts(*groups)) is None,
            },
    {
        if count_groups(groups) != 5 {
            return None;
        }
        let x_sensor = read_coordinate(&group(groups, 1));
        let y_sensor = read_coordinate(&group(groups, 2));
        let x_beacon = read_coordinate(&group(groups, 3));
        let y_beacon = read_coordinate(&group(groups, 4));
        match (x_sensor, y_sensor, x_beacon, y_beacon) {
            (Some(xs), Some(ys), Some(xb), Some(yb)) => Sensor::try_new((xs, ys), (xb, yb)),
            _ => None,
        }
    }

    /// The sensor that `line` describes; `None` where it describes none.
    fn parse(line: &Vec<char>) -> (r: Option<Sensor>)
        ensures
            match r {
                Some(s) => reading_in(line@) == Some(s@),
                None => reading_in(line@) is None,
            },
    {
        let text = string_of(&trim(line));
        let groups = captures(
            r"^Sensor\sat\sx=(?P<x_sensor>[\-0-9]+),\sy=(?P<y_sensor>[\-0-9]+):\sclosest beacon\sis\sat\sx=(?P<x_beacon>[\-0-9]+),\sy=(?P<y_beacon>[\-0-9]+)$",
            text.as_str(),
        );
        Sensor::from_captures(&groups)
    }
}

impl Survey {
    /// This is the survey that `input` writes.
    pub open spec fn is_of(self, input: Seq<char>) -> bool {
        &&& self.readings() == readings_of(input)
        &&& Some(self.row()) == parse_within(lines(input)[0], true, i32::MIN as int, i32::MAX as int)
        &&& Some(self.reach()) == parse_within(lines(input)[1], false, 0, u32::MAX as int)
    }

    /// Reads a survey; `None` where `input` writes none.
    fn read(input: &str) -> (r: Option<Survey>)
        ensures
            r is Some <==> is_survey(input@),
            r matches Some(survey) ==> survey.is_of(input@),
    {
        let text = chars_of(input);
        let ls = lines_of(&text);
        let ghost all = lines(input@);
        if ls.len() < 2 {
            return None;
        }
        assert(all[0] == ls@[0]@);
        assert(all[1] == ls@[1]@);
        let line_to_search = match parse_i64(&ls[0]) {
            None => {
                return None;
            },
            Some(x) => if -0x8000_0000 <= x && x <= 0x7fff_ffff {
                x as i32
            } else {
                return None;
            },
        };
        let extent = match parse_u64(&ls[1]) {
            None => {
                return None;
            },
            Some(x) => if x <= 0xffff_ffff {
                x as u32
            } else {
                return None;
            },
        };
        let mut sensors: Vec<Sensor> = Vec::new();
        let mut i: usize = 2;
        while i < ls.len()
            invariant
                2 <= i <= ls.len(),
                all == rows(ls@),
                all == lines(input@),
                sensors.len() == i - 2,
                forall|k: int| 2 <= k < i ==> reading_in(#[trigger] all[k]) is Some,
                forall|k: int| 0 <= k < i - 2 ==> (#[trigger] sensors@[k])@ == reading_in(all[k + 2])->0,
            decreases ls.len() - i,
        {
            assert(all[i as int] == ls@[i as int]@);
            match Sensor::parse(&ls[i]) {
                None => {
                    return None;
                },
                Some(sensor) => {
                    sensors.push(sensor);
                },
            }
            i += 1;
        }
        let survey = Survey { sensors, line_to_search, extent };
        assert(survey.readings() =~= readings_of(input@));
        Some(survey)
    }

    /// Reads a survey; `None` where `input` writes none.
    pub fn try_new(input: &str) -> (r: Option<Survey>)
        ensures
            r is Some <==> is_survey(input@),
            r matches Some(survey) ==> survey.is_of(input@),
    {
        match Survey::read(input) {
            None => None,
            Some(_) => Some(Survey::new(input)),
        }
    }

    /// Reads a survey.
    pub fn new(input: &str) -> (survey: Survey)
        requires
            is_survey(input@),
        ensures
            survey.is_of(input@),
    {
        Survey::read(input).unwrap()
    }
}

/// The first answer for `input`; `None` where it cannot be worked out.
pub open spec fn first_answer(input: Seq<char>) -> Option<int> {
    if is_survey(input) {
        let row = parse_within(lines(input)[0], true, i32::MIN as int, i32::MAX as int)->0;
        match merged_on(readings_of(input), row, None) {
            Some(m) => positions_in(m),
            None => None,
        }
    } else {
        None
    }
}

/// The second answer for `input`: four million times the first coordinate
/// of the beacon in distress, plus the second; `None` where it cannot be
/// worked out.
pub open spec fn second_answer(input: Seq<char>) -> Option<int> {
    if is_survey(input) {
        let extent = parse_within(lines(input)[1], false, 0, u32::MAX as int)->0;
        match distress_from(readings_of(input), extent, 0) {
            Some(c) => if c.0 >= 0 {
                Some(c.0 * 4000000 + c.1)
            } else {
                None
            },
            None => None,
        }
    } else {
        None
    }
}

/// Works out the first answer.
fn work_out_first(input: &str) -> (r: Option<u32>)
    ensures
        match r {
            Some(n) => first_answer(input@) == Some(n as int),
            None => first_answer(input@) is None,
        },
{
    match Survey::try_new(input) {
        None => None,
        Some(map) => map.try_count(),
    }
}

/// Works out the second answer.
fn work_out_second(input: &str) -> (r: Option<u64>)
    ensures
        match r {
            Some(n) => second_answer(input@) == Some(n as int),
            None => second_answer(input@) is None,
        },
{
    match Survey::try_new(input) {
        None => None,
        Some(map) => match map.try_distress_beacon() {
            None => None,
            Some(distress_beacon) => {
                if distress_beacon.0 < 0 {
                    return None;
                }
                assert(distress_beacon.1 >= 0) by {
                    lemma_distress_row(map.readings(), map.reach(), 0);
                }
                let tuning_frequency: u64 = distress_beacon.0 as u64 * 4000000 + distress_beacon.1 as u64;
                Some(tuning_frequency)
            },
        },
    }
}

/// The beacon in distress lies in a row from `y` on.
proof fn lemma_distress_row(rs: Seq<Reading>, extent: int, y: int)
    requires
        0 <= y,
    ensures
        distress_from(rs, extent, y) matches Some(c) ==> y <= c.1 <= extent,
    decreases extent + 1 - y,
{
    if y <= extent {
        lemma_distress_row(rs, extent, y + 1);
    }
}

impl DayFifteen {
    /// Both answers; `None` where one of them cannot be worked out.
    pub fn solve(&self, input: &str) -> (r: Option<(String, String)>)
        ensures
            r is Some <==> first_answer(input@) is Some && second_answer(input@) is Some,
            r matches Some(answers) ==> answers.0@ == "Not possible beacon locations: "@ + decimal(
                first_answer(input@)->0 as nat,
            ) && answers.1@ == "Tuning frequency of distress signal: "@ + decimal(
                second_answer(input@)->0 as nat,
            ),
    {
        if work_out_first(input).is_some() && work_out_second(input).is_some() {
            Some((self.part_one(input), self.part_two(input)))
        } else {
            None
        }
    }

    /// Reports on how many positions of the row asked about a beacon is
    /// ruled out.
    pub fn part_one(&self, input: &str) -> (out: String)
        requires
            first_answer(input@) is Some,
        ensures
            out@ == "Not possible beacon locations: "@ + decimal(first_answer(input@)->0 as nat),
    {
        let count = work_out_first(input).unwrap();
        labelled_number("Not possible beacon locations: ", count as u64)
    }

    /// Reports the tuning frequency of the beacon in distress.
    pub fn part_two(&self, input: &str) -> (out: String)
        requires
            second_answer(input@) is Some,
        ensures
            out@ == "Tuning frequency of distress signal: "@ + decimal(
                second_answer(input@)->0 as nat,
            ),
    {
        let tuning_frequency = work_out_second(input).unwrap();
        labelled_number("Tuning frequency of distress signal: ", tuning_frequency)
    }
}

} // verus!
