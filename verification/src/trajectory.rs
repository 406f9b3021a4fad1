//! A trajectory: samples at a fixed rate, looked up by time.

use crate::csv::{check_rows, write_rows, CsvError, CsvRow, COLUMNS};
use crate::ieee::Float32;
use crate::number::{read_number, write_number};
use vstd::prelude::*;

verus! {

/// One thousand samples per second.
pub const DEFAULT_RATE_HZ: u32 = 0x447A_0000;

/// One.
pub const UNIT: u32 = 0x3F80_0000;

/// 10^-9: two samples closer in time than this say nothing of the rate.
pub const LEAST_STEP: u32 = 0x3089_705F;

/// 10^-6: quaternions whose angle has a sine below this are interpolated linearly.
pub const LEAST_SINE: u32 = 0x3586_37BD;

/// 10^-8: a quaternion shorter than this is no attitude.
pub const LEAST_NORM: u32 = 0x322B_CC77;

/// What is known of a vehicle at one time.
#[derive(Clone, Copy, Debug, PartialEq, Eq)]
pub struct TrajSample {
    pub t: Float32,
    pub pos_ned: [Float32; 3],
    pub vel_ned: [Float32; 3],
    /// The acceleration, without gravity.
    pub accel_world: [Float32; 3],
    /// The attitude, from the body to the world: scalar part first.
    pub quat: [Float32; 4],
    pub omega_body: [Float32; 3],
}

impl TrajSample {
    /// The value in a column of a file.
    pub open spec fn column(self, k: int) -> Float32 {
        if k == 0 {
            self.t
        } else if k < 4 {
            self.pos_ned[k - 1]
        } else if k < 7 {
            self.vel_ned[k - 4]
        } else if k < 10 {
            self.accel_world[k - 7]
        } else if k < 14 {
            self.quat[k - 10]
        } else {
            self.omega_body[k - 14]
        }
    }

    /// The values of the sample in the order of the columns of a file.
    pub fn columns(&self) -> (r: [Float32; 17])
        ensures
            forall|k: int| 0 <= k < 17 ==> #[trigger] r[k] == self.column(k),
    {
        [
            self.t,
            self.pos_ned[0],
            self.pos_ned[1],
            self.pos_ned[2],
            self.vel_ned[0],
            self.vel_ned[1],
            self.vel_ned[2],
            self.accel_world[0],
            self.accel_world[1],
            self.accel_world[2],
            self.quat[0],
            self.quat[1],
            self.quat[2],
            self.quat[3],
            self.omega_body[0],
            self.omega_body[1],
            self.omega_body[2],
        ]
    }

    /// The fields that the sample is written as.
    pub fn printed(&self) -> (r: Vec<String>)
        ensures
            crate::csv::strings(r@) == printed_row(*self),
    {
        let columns: [Float32; 17] = self.columns();
        let mut out: Vec<String> = Vec::new();
        let mut k: usize = 0;
        while k < COLUMNS
            invariant
                k <= COLUMNS,
                out@.len() == k,
                forall|j: int| 0 <= j < 17 ==> #[trigger] columns[j] == self.column(j),
                forall|j: int|
                    0 <= j < k ==> (#[trigger] out@[j])@ == crate::number::number_text(
                        self.column(j),
                        precision_of(j),
                    ),
            decreases COLUMNS - k,
        {
            assert(columns[k as int] == self.column(k as int));
            out.push(write_number(columns[k], column_precision(k)));
            k += 1;
        }
        proof {
            let all = crate::csv::strings(out@);
            assert forall|j: int| 0 <= j < all.len() implies all[j] == printed_row(*self)[j] by {
                assert(all[j] == out@[j]@);
            }
            assert(all =~= printed_row(*self));
        }
        out
    }

    /// The sample whose values stand in the columns of a row. Columns beyond the last count for
    /// nothing.
    pub fn from_columns(v: &[Float32]) -> (r: Self)
        requires
            v@.len() >= COLUMNS,
        ensures
            forall|k: int| 0 <= k < 17 ==> #[trigger] r.column(k) == v@[k],
    {
        let r: TrajSample = TrajSample {
            t: v[0],
            pos_ned: [v[1], v[2], v[3]],
            vel_ned: [v[4], v[5], v[6]],
            accel_world: [v[7], v[8], v[9]],
            quat: [v[10], v[11], v[12], v[13]],
            omega_body: [v[14], v[15], v[16]],
        };
        proof {
            assert(r.column(1) == v@[1] && r.column(2) == v@[2] && r.column(3) == v@[3]);
            assert(r.column(4) == v@[4] && r.column(5) == v@[5] && r.column(6) == v@[6]);
            assert(r.column(7) == v@[7] && r.column(8) == v@[8] && r.column(9) == v@[9]);
            assert(r.column(10) == v@[10] && r.column(11) == v@[11]);
            assert(r.column(12) == v@[12] && r.column(13) == v@[13]);
            assert(r.column(14) == v@[14] && r.column(15) == v@[15] && r.column(16) == v@[16]);
        }
        r
    }

    /// The sample that stands for a trajectory without samples: at rest, level, at the origin.
    pub fn rest(t: Float32) -> (r: Self)
        ensures
            r.t == t,
            forall|k: int|
                1 <= k < 17 ==> #[trigger] r.column(k) == Float32::from_bits(
                    if k == 10 {
                        UNIT
                    } else {
                        0
                    },
                ),
    {
        let zero: Float32 = Float32::from_bits(0);
        TrajSample {
            t,
            pos_ned: [zero, zero, zero],
            vel_ned: [zero, zero, zero],
            accel_world: [zero, zero, zero],
            quat: [Float32::from_bits(UNIT), zero, zero, zero],
            omega_body: [zero, zero, zero],
        }
    }
}

/// The columns of a sample determine it: two samples with the same columns hold the same numbers.
pub proof fn lemma_columns_determine_sample(a: TrajSample, b: TrajSample)
    requires
        forall|k: int| 0 <= k < 17 ==> #[trigger] a.column(k) == b.column(k),
    ensures
        a.t == b.t,
        a.pos_ned@ == b.pos_ned@,
        a.vel_ned@ == b.vel_ned@,
        a.accel_world@ == b.accel_world@,
        a.quat@ == b.quat@,
        a.omega_body@ == b.omega_body@,
{
    assert(a.column(0) == b.column(0));
    assert forall|k: int| 0 <= k < 3 implies a.pos_ned[k] == b.pos_ned[k] by {
        assert(a.column(1 + k) == b.column(1 + k));
    }
    assert forall|k: int| 0 <= k < 3 implies a.vel_ned[k] == b.vel_ned[k] by {
        assert(a.column(4 + k) == b.column(4 + k));
    }
    assert forall|k: int| 0 <= k < 3 implies a.accel_world[k] == b.accel_world[k] by {
        assert(a.column(7 + k) == b.column(7 + k));
    }
    assert forall|k: int| 0 <= k < 4 implies a.quat[k] == b.quat[k] by {
        assert(a.column(10 + k) == b.column(10 + k));
    }
    assert forall|k: int| 0 <= k < 3 implies a.omega_body[k] == b.omega_body[k] by {
        assert(a.column(14 + k) == b.column(14 + k));
    }
    assert(a.pos_ned@ =~= b.pos_ned@);
    assert(a.vel_ned@ =~= b.vel_ned@);
    assert(a.accel_world@ =~= b.accel_world@);
    assert(a.quat@ =~= b.quat@);
    assert(a.omega_body@ =~= b.omega_body@);
}

/// The digits behind the point that a column is written with.
pub open spec fn precision_of(k: int) -> nat {
    if k < 10 {
        6
    } else {
        9
    }
}

pub fn column_precision(k: usize) -> (r: usize)
    requires
        k < COLUMNS,
    ensures
        r == precision_of(k as int),
{
    if k < 10 {
        6
    } else {
        9
    }
}

/// A trajectory.
#[derive(Clone, Debug)]
pub struct Trajectory {
    pub name: String,
    pub rate_hz: Float32,
    pub samples: Vec<TrajSample>,
}

/// Where the state at a time is to be taken from.
#[derive(Clone, Copy, Debug, PartialEq, Eq, Structural)]
pub enum Lookup {
    /// There is nothing to take it from.
    Rest,
    /// This sample.
    Sample(usize),
    /// Between this sample and the next.
    Between(usize),
}

impl Trajectory {
    pub open spec fn duration_of(self) -> Float32 {
        if self.samples@.len() == 0 {
            Float32::from_bits(0)
        } else {
            self.samples@.last().t
        }
    }

    pub fn name(&self) -> (r: &str)
        ensures
            r@ == self.name@,
    {
        self.name.as_str()
    }

    pub fn rate_hz(&self) -> (r: Float32)
        ensures
            r == self.rate_hz,
    {
        self.rate_hz
    }

    pub fn samples(&self) -> (r: &[TrajSample])
        ensures
            r@ == self.samples@,
    {
        self.samples.as_slice()
    }

    pub fn len(&self) -> (r: usize)
        ensures
            r == self.samples@.len(),
    {
        self.samples.len()
    }

    pub fn is_empty(&self) -> (r: bool)
        ensures
            r == (self.samples@.len() == 0),
    {
        self.samples.len() == 0
    }

    /// The time of the last sample.
    pub fn duration(&self) -> (r: Float32)
        ensures
            r == self.duration_of(),
    {
        if self.samples.len() == 0 {
            Float32::from_bits(0)
        } else {
            self.samples[self.samples.len() - 1].t
        }
    }

    /// Where the state at time `t` is taken from. `cell` counts the whole sample intervals before
    /// `t`. Times outside the trajectory are held at its ends.
    pub fn at(&self, t: Float32, cell: usize) -> (r: Lookup)
        requires
            self.samples@.len() == 1 ==> t.at_most(Float32::from_bits(0)) || self.duration_of().at_most(
                t,
            ),
        ensures
            r == if self.samples@.len() == 0 {
                Lookup::Rest
            } else if t.at_most(Float32::from_bits(0)) {
                Lookup::Sample(0)
            } else if self.duration_of().at_most(t) {
                Lookup::Sample((self.samples@.len() - 1) as usize)
            } else if cell + 2 <= self.samples@.len() {
                Lookup::Between(cell)
            } else {
                Lookup::Between((self.samples@.len() - 2) as usize)
            },
            match r {
                Lookup::Rest => true,
                Lookup::Sample(i) => i < self.samples@.len(),
                Lookup::Between(i) => i + 1 < self.samples@.len(),
            },
    {
        let n: usize = self.samples.len();
        if n == 0 {
            return Lookup::Rest;
        }
        if t.le(Float32::from_bits(0)) {
            return Lookup::Sample(0);
        }
        if self.duration().le(t) {
            return Lookup::Sample(n - 1);
        }
        if cell <= n - 2 {
            Lookup::Between(cell)
        } else {
            Lookup::Between(n - 2)
        }
    }

    /// The trajectory as the text of a file.
    pub fn to_csv(&self) -> (r: String)
        ensures
            r@ == crate::csv::csv_text(printed(self.samples@)),
    {
        let mut rows: Vec<Vec<String>> = Vec::new();
        let mut i: usize = 0;
        while i < self.samples.len()
            invariant
                i <= self.samples@.len(),
                rows@.len() == i,
                forall|j: int|
                    0 <= j < i ==> crate::csv::strings((#[trigger] rows@[j])@) == printed_row(
                        self.samples@[j],
                    ),
            decreases self.samples@.len() - i,
        {
            rows.push(self.samples[i].printed());
            i += 1;
        }
        proof {
            let all = crate::csv::string_rows(rows@);
            assert forall|j: int| 0 <= j < all.len() implies all[j] == printed(self.samples@)[j] by {
                assert(all[j] == crate::csv::strings(rows@[j]@));
            }
            assert(all =~= printed(self.samples@));
        }
        write_rows(rows.as_slice())
    }

    /// `r` is what the rows of a file and the numbers in their fields give: a trajectory with a sample
    /// for each row, or the error of the first row that cannot be taken.
    pub open spec fn read_as(
        name: Seq<char>,
        rows: Seq<CsvRow>,
        values: Seq<Result<Vec<Float32>, usize>>,
        rate_hz: Float32,
        r: Result<Self, CsvError>,
    ) -> bool {
        match r {
            Ok(t) => {
                &&& rows.len() >= 2
                &&& forall|i: int|
                    0 <= i < rows.len() ==> !crate::csv::faulty(
                        #[trigger] rows[i],
                        bad_field(values[i]),
                    )
                &&& t.name@ == name
                &&& t.rate_hz == rate_hz
                &&& t.samples@.len() == rows.len()
                &&& forall|i: int, k: int|
                    0 <= i < rows.len() && 0 <= k < 17 ==> #[trigger] t.samples@[i].column(k)
                        == values[i]->Ok_0@[k]
            },
            Err(CsvError::Unparsable { line, field }) => exists|i: int|
                {
                    &&& 0 <= i < rows.len()
                    &&& (#[trigger] rows[i]).line == line
                    &&& bad_field(values[i]) == Some(field)
                    &&& forall|j: int|
                        0 <= j < i ==> !crate::csv::faulty(
                            #[trigger] rows[j],
                            bad_field(values[j]),
                        )
                },
            Err(CsvError::TooFewFields { line }) => exists|i: int|
                {
                    &&& 0 <= i < rows.len()
                    &&& (#[trigger] rows[i]).line == line
                    &&& bad_field(values[i]) is None
                    &&& rows[i].fields@.len() < COLUMNS
                    &&& forall|j: int|
                        0 <= j < i ==> !crate::csv::faulty(
                            #[trigger] rows[j],
                            bad_field(values[j]),
                        )
                },
            Err(CsvError::TooFewSamples) => {
                &&& rows.len() < 2
                &&& forall|i: int|
                    0 <= i < rows.len() ==> !crate::csv::faulty(
                        #[trigger] rows[i],
                        bad_field(values[i]),
                    )
            },
        }
    }

    /// A trajectory from the rows of a file and the numbers in their fields: those of a row, or the
    /// first of its fields that is no number. The rate is that of [`rate_source`].
    pub fn from_csv(
        name: &str,
        rows: &[CsvRow],
        values: &[Result<Vec<Float32>, usize>],
        rate_hz: Float32,
    ) -> (r: Result<Self, CsvError>)
        requires
            rows@.len() == values@.len(),
            forall|i: int|
                0 <= i < rows@.len() ==> ((#[trigger] values@[i]) matches Ok(v) ==> v@.len()
                    == rows@[i].fields@.len()),
        ensures
            Self::read_as(name@, rows@, values@, rate_hz, r),
    {
        let mut bad: Vec<Option<usize>> = Vec::new();
        let mut i: usize = 0;
        while i < values.len()
            invariant
                i <= values@.len(),
                bad@.len() == i,
                forall|k: int| 0 <= k < i ==> #[trigger] bad@[k] == bad_field(values@[k]),
            decreases values@.len() - i,
        {
            match &values[i] {
                Ok(_) => {
                    bad.push(None);
                },
                Err(field) => {
                    bad.push(Some(*field));
                },
            }
            i += 1;
        }
        match check_rows(rows, bad.as_slice()) {
            Ok(_) => {},
            Err(e) => {
                return Err(e);
            },
        }
        let mut samples: Vec<TrajSample> = Vec::new();
        let mut j: usize = 0;
        while j < values.len()
            invariant
                j <= values@.len(),
                rows@.len() == values@.len(),
                bad@.len() == values@.len(),
                forall|k: int| 0 <= k < bad@.len() ==> #[trigger] bad@[k] == bad_field(values@[k]),
                forall|k: int|
                    0 <= k < rows@.len() ==> ((#[trigger] values@[k]) matches Ok(v) ==> v@.len()
                        == rows@[k].fields@.len()),
                forall|k: int|
                    0 <= k < rows@.len() ==> !crate::csv::faulty(#[trigger] rows@[k], bad@[k]),
                samples@.len() == j,
                forall|m: int, k: int|
                    0 <= m < j && 0 <= k < 17 ==> #[trigger] samples@[m].column(k)
                        == values@[m]->Ok_0@[k],
            decreases values@.len() - j,
        {
            proof {
                assert(!crate::csv::faulty(rows@[j as int], bad@[j as int]));
            }
            match &values[j] {
                Ok(v) => {
                    samples.push(TrajSample::from_columns(v.as_slice()));
                },
                Err(field) => {
                    assert(false);
                },
            }
            j += 1;
        }
        Ok(Trajectory { name: name.to_owned(), rate_hz, samples })
    }
}

/// The first field of a row that is no number.
pub open spec fn bad_field(v: Result<Vec<Float32>, usize>) -> Option<usize> {
    match v {
        Ok(_) => None,
        Err(field) => Some(field),
    }
}

/// The fields that a sample is written as.
pub open spec fn printed_row(sample: TrajSample) -> Seq<Seq<char>> {
    Seq::new(
        COLUMNS as nat,
        |k: int| crate::number::number_text(sample.column(k), precision_of(k)),
    )
}

/// The fields that samples are written as, a row for each.
pub open spec fn printed(samples: Seq<TrajSample>) -> Seq<Seq<Seq<char>>> {
    Seq::new(samples.len(), |i: int| printed_row(samples[i]))
}

/// `v` holds the numbers of the fields of a row: of each that is legible the number that it stands
/// for. Or it names the first field without a number, which is none that is legible. `other` holds
/// the numbers of fields that are not legible.
pub open spec fn numbers_of(
    fields: Seq<Seq<char>>,
    other: Seq<Option<Float32>>,
    v: Result<Vec<Float32>, usize>,
) -> bool {
    match v {
        Ok(numbers) => {
            &&& numbers@.len() == fields.len()
            &&& forall|k: int|
                0 <= k < fields.len() ==> if crate::number::legible(fields[k]) {
                    crate::number::stands_for(fields[k], #[trigger] numbers@[k])
                } else {
                    other[k] == Some(numbers@[k])
                }
        },
        Err(bad) => {
            &&& bad < fields.len()
            &&& !crate::number::legible(fields[bad as int])
            &&& other[bad as int] is None
            &&& forall|k: int|
                0 <= k < bad ==> crate::number::legible(#[trigger] fields[k]) || other[k] is Some
        },
    }
}

/// The numbers of the fields of a row. A field that is not in plain decimal, or is too long, has the
/// number in `other`, if there is one.
pub fn row_numbers(fields: &[Vec<char>], other: &[Option<Float32>]) -> (r: Result<
    Vec<Float32>,
    usize,
>)
    requires
        fields@.len() == other@.len(),
    ensures
        numbers_of(crate::text::pieces(fields@), other@, r),
{
    let mut out: Vec<Float32> = Vec::new();
    let mut i: usize = 0;
    let ghost texts = crate::text::pieces(fields@);
    while i < fields.len()
        invariant
            i <= fields@.len(),
            fields@.len() == other@.len(),
            texts == crate::text::pieces(fields@),
            out@.len() == i,
            forall|k: int|
                0 <= k < i ==> if crate::number::legible(texts[k]) {
                    crate::number::stands_for(texts[k], #[trigger] out@[k])
                } else {
                    other@[k] == Some(out@[k])
                },
            forall|k: int|
                0 <= k < i ==> crate::number::legible(#[trigger] texts[k]) || other@[k] is Some,
        decreases fields@.len() - i,
    {
        assert(texts[i as int] == fields@[i as int]@);
        match read_number(fields[i].as_slice()) {
            Some(y) => {
                out.push(y);
            },
            None => match other[i] {
                Some(y) => {
                    out.push(y);
                },
                None => {
                    return Err(i);
                },
            },
        }
        i += 1;
    }
    Ok(out)
}

/// A row has numbers where each of its fields is legible or has a number given; otherwise the first
/// field that is neither is named. A legible field has the number that it stands for, whatever is
/// given.
pub proof fn lemma_numbers_of(
    fields: Seq<Seq<char>>,
    other: Seq<Option<Float32>>,
    v: Result<Vec<Float32>, usize>,
    k: int,
)
    requires
        fields.len() == other.len(),
        fields.len() <= usize::MAX,
        numbers_of(fields, other, v),
        0 <= k < fields.len(),
    ensures
        v matches Ok(n) ==> n@.len() == fields.len() && if crate::number::legible(fields[k]) {
            crate::number::stands_for(fields[k], n@[k])
        } else {
            other[k] == Some(n@[k])
        },
        v is Ok ==> crate::number::legible(fields[k]) || other[k] is Some,
        !crate::number::legible(fields[k]) && other[k] is None ==> (v matches Err(bad) && bad <= k),
        v matches Err(bad) ==> bad < fields.len() && !crate::number::legible(fields[bad as int])
            && other[bad as int] is None,
        v matches Err(bad) ==> k < bad ==> crate::number::legible(fields[k]) || other[k] is Some,
        bad_field(v) is None <==> v is Ok,
        v matches Err(bad) ==> bad_field(v) == Some(bad),
{
    if let Ok(n) = v {
        let x = n@[k];
    }
}

/// A sample whose numbers are written in plain decimal, and not too long to be read again.
pub open spec fn moderate_sample(sample: TrajSample) -> bool {
    forall|k: int| 0 <= k < COLUMNS ==> crate::number::moderate(#[trigger] sample.column(k))
}

/// Two samples agree to within one unit of the last place that each column is written with: a
/// millionth for the time, the position, the velocity and the acceleration, and a billionth for the
/// attitude and the rates.
pub open spec fn agree(a: TrajSample, b: TrajSample) -> bool {
    forall|k: int|
        0 <= k < COLUMNS ==> crate::number::size(
            (#[trigger] a.column(k)).value() - b.column(k).value(),
        ) * crate::number::ten_to(precision_of(k)) <= crate::number::one()
}

proof fn lemma_printed_row(sample: TrajSample)
    requires
        moderate_sample(sample),
    ensures
        crate::csv::plain_row(printed_row(sample)),
        forall|k: int|
            0 <= k < COLUMNS ==> crate::number::legible(#[trigger] printed_row(sample)[k]),
{
    let row = printed_row(sample);
    assert forall|k: int| 0 <= k < COLUMNS implies {
        &&& crate::number::legible(#[trigger] row[k])
        &&& crate::csv::plain_field(row[k])
        &&& row[k][0] != '#'
        &&& row[k] != seq!['t']
    } by {
        let x = sample.column(k);
        assert(crate::number::moderate(x));
        crate::number::lemma_written_is_legible(x, precision_of(k));
        crate::number::lemma_number_text(x, precision_of(k));
        assert(row[k] == crate::number::number_text(x, precision_of(k)));
        assert(!crate::number::is_digit('#') && !crate::number::is_digit('t'));
        assert(seq!['t'][0] == 't');
        assert forall|i: int| 0 <= i < row[k].len() implies !crate::text::whitespace(
            #[trigger] row[k][i],
        ) && row[k][i] != ',' by {
            assert(!crate::number::is_digit(','));
        }
    }
}

/// A trajectory that is written to a file and read again is the same: of at least two samples with
/// moderate numbers, it is read without an error, under the name given to it, with as many samples, in
/// the same order, and each agrees with the one that was written.
pub proof fn lemma_trajectory_roundtrip(
    samples: Seq<TrajSample>,
    name: Seq<char>,
    rows: Seq<CsvRow>,
    others: Seq<Seq<Option<Float32>>>,
    values: Seq<Result<Vec<Float32>, usize>>,
    rate_hz: Float32,
    r: Result<Trajectory, CsvError>,
)
    requires
        samples.len() >= 2,
        forall|i: int| 0 <= i < samples.len() ==> moderate_sample(#[trigger] samples[i]),
        crate::csv::rows_view(rows) == crate::csv::rows_of(
            crate::text::split(crate::csv::csv_text(printed(samples)), '\n'),
        ),
        values.len() == rows.len(),
        forall|i: int|
            0 <= i < rows.len() ==> numbers_of(
                crate::text::pieces(rows[i].fields@),
                others[i],
                #[trigger] values[i],
            ),
        Trajectory::read_as(name, rows, values, rate_hz, r),
    ensures
        r matches Ok(t) && {
            &&& t.name@ == name
            &&& t.rate_hz == rate_hz
            &&& t.samples@.len() == samples.len()
            &&& forall|i: int|
                0 <= i < samples.len() ==> agree(samples[i], #[trigger] t.samples@[i])
        },
{
    let texts = printed(samples);
    assert forall|i: int| 0 <= i < texts.len() implies crate::csv::plain_row(#[trigger] texts[i]) by {
        assert(moderate_sample(samples[i]));
        lemma_printed_row(samples[i]);
    }
    crate::csv::lemma_csv_roundtrip(texts);
    let back = crate::csv::rows_view(rows);
    assert(back.len() == texts.len());
    assert(rows.len() == samples.len());
    assert forall|i: int| 0 <= i < rows.len() implies {
        &&& crate::text::pieces(rows[i].fields@) == texts[i]
        &&& rows[i].fields@.len() == COLUMNS
        &&& (#[trigger] values[i]) is Ok
    } by {
        assert(back[i] == rows[i].view());
        assert(crate::text::pieces(rows[i].fields@) == texts[i]);
        assert(crate::text::pieces(rows[i].fields@).len() == rows[i].fields@.len());
        assert(moderate_sample(samples[i]));
        lemma_printed_row(samples[i]);
    }
    assert forall|i: int| 0 <= i < rows.len() implies !crate::csv::faulty(
        #[trigger] rows[i],
        bad_field(values[i]),
    ) by {
        assert(values[i] is Ok);
    }
    let t = r->Ok_0;
    assert forall|i: int| 0 <= i < samples.len() implies agree(
        samples[i],
        #[trigger] t.samples@[i],
    ) by {
        let numbers = values[i]->Ok_0;
        assert(numbers_of(texts[i], others[i], values[i]));
        assert(moderate_sample(samples[i]));
        lemma_printed_row(samples[i]);
        assert forall|k: int| 0 <= k < COLUMNS implies crate::number::size(
            (#[trigger] samples[i].column(k)).value() - t.samples@[i].column(k).value(),
        ) * crate::number::ten_to(precision_of(k)) <= crate::number::one() by {
            let x = samples[i].column(k);
            assert(crate::number::moderate(x));
            assert(crate::number::legible(printed_row(samples[i])[k]));
            assert(texts[i][k] == crate::number::number_text(x, precision_of(k)));
            assert(crate::number::stands_for(texts[i][k], numbers@[k]));
            assert(t.samples@[i].column(k) == numbers@[k]);
            crate::number::lemma_written_is_legible(x, precision_of(k));
            crate::number::lemma_number_roundtrip(x, precision_of(k), numbers@[k]);
        }
    }
}

/// The rate that samples are taken at: the one asked for, if it is positive.
pub fn sample_rate(rate_hz: Float32) -> (r: Float32)
    ensures
        r == if Float32::from_bits(0).less(rate_hz) {
            rate_hz
        } else {
            Float32::from_bits(DEFAULT_RATE_HZ)
        },
        Float32::from_bits(0).less(r),
{
    if Float32::from_bits(0).lt(rate_hz) {
        rate_hz
    } else {
        Float32::from_bits(DEFAULT_RATE_HZ)
    }
}

/// The time that is sampled: the one asked for, if it is finite and positive, and otherwise that of
/// the manoeuvre.
pub fn total_time(total_s: Float32, natural: Float32) -> (r: Float32)
    ensures
        r == if total_s.finite() && Float32::from_bits(0).less(total_s) {
            total_s
        } else {
            natural
        },
{
    if total_s.is_finite() && Float32::from_bits(0).lt(total_s) {
        total_s
    } else {
        natural
    }
}

/// The samples that a rate of change is taken between.
#[derive(Clone, Copy, Debug, PartialEq, Eq, Structural)]
pub struct Stencil {
    pub prev: usize,
    pub next: usize,
    /// The difference spans one step and not two.
    pub one_sided: bool,
}

/// The sample before `i`, or `i` itself where it is the first.
pub open spec fn sample_before(i: int) -> int {
    if i == 0 {
        0
    } else {
        i - 1
    }
}

/// The sample after `i`, or `i` itself where it is the last of `n`.
pub open spec fn sample_after(i: int, n: int) -> int {
    if i + 1 < n {
        i + 1
    } else {
        n - 1
    }
}

/// The samples that the rate of change at sample `i` of `n` is taken between: its neighbours, and at
/// an end the sample itself and the one beside it.
pub fn stencil(i: usize, n: usize) -> (r: Stencil)
    requires
        i < n,
    ensures
        r.prev == sample_before(i as int),
        r.next == sample_after(i as int, n as int),
        r.one_sided == (i == 0 || i == n - 1),
{
    Stencil {
        prev: if i == 0 {
            0
        } else {
            i - 1
        },
        next: if i < n - 1 {
            i + 1
        } else {
            n - 1
        },
        one_sided: i == 0 || i == n - 1,
    }
}

/// The samples of a stencil are as many steps apart as it says, wherever there are two samples.
pub proof fn lemma_stencil_span(i: int, n: int)
    requires
        0 <= i < n,
        n >= 2,
    ensures
        sample_after(i, n) - sample_before(i) == if i == 0 || i == n - 1 {
            1int
        } else {
            2
        },
{
}

/// The step, among those between successive samples, whose inverse is the rate of a file: the last
/// that is long enough.
pub fn rate_source(steps: &[Float32]) -> (r: Option<usize>)
    ensures
        match r {
            Some(i) => {
                &&& i < steps@.len()
                &&& Float32::from_bits(LEAST_STEP).less(steps@[i as int])
                &&& forall|k: int|
                    i < k < steps@.len() ==> !Float32::from_bits(LEAST_STEP).less(
                        #[trigger] steps@[k],
                    )
            },
            None => forall|k: int|
                0 <= k < steps@.len() ==> !Float32::from_bits(LEAST_STEP).less(#[trigger] steps@[k]),
        },
{
    let mut i: usize = steps.len();
    while i > 0
        invariant
            i <= steps@.len(),
            forall|k: int|
                i <= k < steps@.len() ==> !Float32::from_bits(LEAST_STEP).less(#[trigger] steps@[k]),
        decreases i,
    {
        if Float32::from_bits(LEAST_STEP).lt(steps[i - 1]) {
            return Some(i - 1);
        }
        i -= 1;
    }
    None
}

/// The quaternion of two that stand for one attitude which lies on the side of another one, from
/// their dot product.
pub fn align_hemisphere(dot: Float32, b: [Float32; 4]) -> (r: [Float32; 4])
    ensures
        forall|k: int|
            0 <= k < 4 ==> #[trigger] r[k] == if dot.less(Float32::from_bits(0)) {
                b[k].negated()
            } else {
                b[k]
            },
{
    if dot.lt(Float32::from_bits(0)) {
        [b[0].neg(), b[1].neg(), b[2].neg(), b[3].neg()]
    } else {
        b
    }
}

/// The two are so close that they are interpolated along the chord, from the sine of their angle.
pub fn nearly_parallel(sine: Float32) -> (r: bool)
    ensures
        r == sine.absolute().less(Float32::from_bits(LEAST_SINE)),
{
    sine.abs().lt(Float32::from_bits(LEAST_SINE))
}

/// A quaternion that was divided by its norm, or the level attitude where the norm is too small.
pub fn unit_or_level(norm: Float32, unit: [Float32; 4]) -> (r: [Float32; 4])
    ensures
        !norm.less(Float32::from_bits(LEAST_NORM)) ==> r == unit,
        norm.less(Float32::from_bits(LEAST_NORM)) ==> r[0] == Float32::from_bits(UNIT) && r[1]
            == Float32::from_bits(0) && r[2] == Float32::from_bits(0) && r[3] == Float32::from_bits(
            0,
        ),
{
    if norm.lt(Float32::from_bits(LEAST_NORM)) {
        let zero: Float32 = Float32::from_bits(0);
        [Float32::from_bits(UNIT), zero, zero, zero]
    } else {
        unit
    }
}

/// The columns of a file: the time, then position, velocity and acceleration to the north, the east
/// and down, then the attitude with its scalar part first, then the rates.
pub proof fn lemma_columns(s: TrajSample)
    ensures
        s.column(0) == s.t,
        s.column(1) == s.pos_ned[0] && s.column(2) == s.pos_ned[1] && s.column(3) == s.pos_ned[2],
        s.column(4) == s.vel_ned[0] && s.column(5) == s.vel_ned[1] && s.column(6) == s.vel_ned[2],
        s.column(7) == s.accel_world[0] && s.column(8) == s.accel_world[1] && s.column(9)
            == s.accel_world[2],
        s.column(10) == s.quat[0] && s.column(11) == s.quat[1] && s.column(12) == s.quat[2]
            && s.column(13) == s.quat[3],
        s.column(14) == s.omega_body[0] && s.column(15) == s.omega_body[1] && s.column(16)
            == s.omega_body[2],
{
}

/// Attitude and rates are written to the billionth, and what stands before them to the millionth.
pub proof fn lemma_precision(k: int)
    requires
        0 <= k < 17,
    ensures
        k <= 9 ==> precision_of(k) == 6,
        k >= 10 ==> precision_of(k) == 9,
{
}

/// A trajectory lasts until its last sample, and not at all without samples.
pub proof fn lemma_duration(t: Trajectory)
    ensures
        t.samples@.len() > 0 ==> t.duration_of() == t.samples@[t.samples@.len() - 1].t,
        t.samples@.len() == 0 ==> t.duration_of().bits == 0,
{
}

/// The neighbours of a sample are the one before it and the one behind it, as far as there are any;
/// at an end the sample itself takes the place of the one that is missing.
pub proof fn lemma_stencil_neighbours(i: int, n: int)
    requires
        0 <= i < n,
    ensures
        0 <= sample_before(i) <= i <= sample_after(i, n) < n,
        i > 0 ==> sample_before(i) == i - 1,
        i < n - 1 ==> sample_after(i, n) == i + 1,
{
}

/// What a file is refused for is settled by its first row that cannot be taken: a field that is no
/// number comes before a missing one. A file whose rows can all be taken is refused only where there
/// are fewer than two.
pub proof fn lemma_first_fault_decides(
    name: Seq<char>,
    rows: Seq<CsvRow>,
    values: Seq<Result<Vec<Float32>, usize>>,
    rate_hz: Float32,
    r: Result<Trajectory, CsvError>,
    i: int,
)
    requires
        rows.len() == values.len(),
        Trajectory::read_as(name, rows, values, rate_hz, r),
        0 <= i <= rows.len(),
        forall|j: int|
            0 <= j < i ==> values[j] is Ok && (#[trigger] rows[j]).fields@.len() >= 17,
    ensures
        i < rows.len() && values[i] is Err ==> r == Err::<Trajectory, CsvError>(
            CsvError::Unparsable { line: rows[i].line, field: values[i]->Err_0 },
        ),
        i < rows.len() && values[i] is Ok && rows[i].fields@.len() < 17 ==> r == Err::<
            Trajectory,
            CsvError,
        >(CsvError::TooFewFields { line: rows[i].line }),
        i == rows.len() && rows.len() < 2 ==> r == Err::<Trajectory, CsvError>(
            CsvError::TooFewSamples,
        ),
        i == rows.len() && rows.len() >= 2 ==> r is Ok,
{
    if i < rows.len() && (values[i] is Err || rows[i].fields@.len() < 17) {
        assert(crate::csv::faulty(rows[i], bad_field(values[i])));
    }
    assert forall|j: int| 0 <= j < i implies !crate::csv::faulty(
        #[trigger] rows[j],
        bad_field(values[j]),
    ) by {}
    match r {
        Err(CsvError::Unparsable { line, field }) => {
            let k = choose|k: int|
                {
                    &&& 0 <= k < rows.len()
                    &&& (#[trigger] rows[k]).line == line
                    &&& bad_field(values[k]) == Some(field)
                    &&& forall|j: int|
                        0 <= j < k ==> !crate::csv::faulty(
                            #[trigger] rows[j],
                            bad_field(values[j]),
                        )
                };
            assert(k >= i);
        },
        Err(CsvError::TooFewFields { line }) => {
            let k = choose|k: int|
                {
                    &&& 0 <= k < rows.len()
                    &&& (#[trigger] rows[k]).line == line
                    &&& bad_field(values[k]) is None
                    &&& rows[k].fields@.len() < COLUMNS
                    &&& forall|j: int|
                        0 <= j < k ==> !crate::csv::faulty(
                            #[trigger] rows[j],
                            bad_field(values[j]),
                        )
                };
            assert(k >= i);
        },
        _ => {},
    }
}

/// A row that can be taken gives a sample with its own numbers in their columns.
pub proof fn lemma_rows_become_samples(
    name: Seq<char>,
    rows: Seq<CsvRow>,
    values: Seq<Result<Vec<Float32>, usize>>,
    rate_hz: Float32,
    t: Trajectory,
    i: int,
)
    requires
        Trajectory::read_as(name, rows, values, rate_hz, Ok(t)),
        0 <= i < rows.len(),
    ensures
        t.name@ == name && t.rate_hz == rate_hz && t.samples@.len() == rows.len(),
        values[i] is Ok,
        t.samples@[i].t == values[i]->Ok_0@[0],
        forall|k: int| 0 <= k < 3 ==> #[trigger] t.samples@[i].pos_ned[k] == values[i]->Ok_0@[1 + k],
        forall|k: int| 0 <= k < 3 ==> #[trigger] t.samples@[i].vel_ned[k] == values[i]->Ok_0@[4 + k],
        forall|k: int|
            0 <= k < 3 ==> #[trigger] t.samples@[i].accel_world[k] == values[i]->Ok_0@[7 + k],
        forall|k: int| 0 <= k < 4 ==> #[trigger] t.samples@[i].quat[k] == values[i]->Ok_0@[10 + k],
        forall|k: int|
            0 <= k < 3 ==> #[trigger] t.samples@[i].omega_body[k] == values[i]->Ok_0@[14 + k],
{
    let s = t.samples@[i];
    assert(!crate::csv::faulty(rows[i], bad_field(values[i])));
    assert(s.column(0) == values[i]->Ok_0@[0]);
    assert forall|k: int| 0 <= k < 3 implies #[trigger] s.pos_ned[k] == values[i]->Ok_0@[1 + k] by {
        assert(t.samples@[i].column(1 + k) == values[i]->Ok_0@[1 + k]);
    }
    assert forall|k: int| 0 <= k < 3 implies #[trigger] s.vel_ned[k] == values[i]->Ok_0@[4 + k] by {
        assert(t.samples@[i].column(4 + k) == values[i]->Ok_0@[4 + k]);
    }
    assert forall|k: int| 0 <= k < 3 implies #[trigger] s.accel_world[k] == values[i]->Ok_0@[7
        + k] by {
        assert(t.samples@[i].column(7 + k) == values[i]->Ok_0@[7 + k]);
    }
    assert forall|k: int| 0 <= k < 4 implies #[trigger] s.quat[k] == values[i]->Ok_0@[10 + k] by {
        assert(t.samples@[i].column(10 + k) == values[i]->Ok_0@[10 + k]);
    }
    assert forall|k: int| 0 <= k < 3 implies #[trigger] s.omega_body[k] == values[i]->Ok_0@[14
        + k] by {
        assert(t.samples@[i].column(14 + k) == values[i]->Ok_0@[14 + k]);
    }
}

/// What the constants of this module are worth.
pub proof fn lemma_measures()
    ensures
        crate::ieee::is_ratio32(Float32::from_bits(DEFAULT_RATE_HZ), 1000, 1),
        crate::ieee::is_ratio32(Float32::from_bits(UNIT), 1, 1),
        crate::ieee::is_ratio32(Float32::from_bits(LEAST_STEP), 1, 1000000000),
        crate::ieee::is_ratio32(Float32::from_bits(LEAST_SINE), 1, 1000000),
        crate::ieee::is_ratio32(Float32::from_bits(LEAST_NORM), 1, 100000000),
{
    assert(crate::ieee::is_ratio32(Float32::from_bits(DEFAULT_RATE_HZ), 1000, 1)) by {
        vstd::arithmetic::power2::lemma2_to64();
        crate::ieee::lemma_ratio32(Float32::from_bits(DEFAULT_RATE_HZ), 1000, 1, 14);
    }
    assert(crate::ieee::is_ratio32(Float32::from_bits(UNIT), 1, 1)) by {
        vstd::arithmetic::power2::lemma2_to64();
        crate::ieee::lemma_ratio32(Float32::from_bits(UNIT), 1, 1, 23);
    }
    assert(crate::ieee::is_ratio32(Float32::from_bits(LEAST_STEP), 1, 1000000000)) by {
        vstd::arithmetic::power2::lemma2_to64_rest();
        crate::ieee::lemma_ratio32(Float32::from_bits(LEAST_STEP), 1, 1000000000, 53);
    }
    assert(crate::ieee::is_ratio32(Float32::from_bits(LEAST_SINE), 1, 1000000)) by {
        vstd::arithmetic::power2::lemma2_to64_rest();
        crate::ieee::lemma_ratio32(Float32::from_bits(LEAST_SINE), 1, 1000000, 43);
    }
    assert(crate::ieee::is_ratio32(Float32::from_bits(LEAST_NORM), 1, 100000000)) by {
        vstd::arithmetic::power2::lemma2_to64_rest();
        crate::ieee::lemma_ratio32(Float32::from_bits(LEAST_NORM), 1, 100000000, 50);
    }
}

} // verus!
