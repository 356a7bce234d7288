//! Tables of generated values and sampled sparsity patterns.

use vstd::prelude::*;

use crate::problem;
use crate::randomness::InstanceSeed;
use crate::stream;
use crate::stream::UniformStream;

verus! {

/// A table of negative values with magnitudes in `minimum..=maximum`.
pub open spec fn negative_table(seed: Seq<u8>, period: nat, minimum: nat, maximum: nat) -> Option<
    Seq<i64>,
> {
    match stream::draws(seed, 0, (maximum - minimum + 1) as nat, period) {
        None => None,
        Some((values, _)) => Some(Seq::new(period, |i: int| (-(minimum + values[i])) as i64)),
    }
}

/// Number of nonzero integers in `minimum..=maximum`.
pub open spec fn nonzero_width(minimum: int, maximum: int) -> int {
    maximum - minimum + 1 - if minimum <= 0 <= maximum {
        1int
    } else {
        0
    }
}

/// The nonzero integer of `minimum..=maximum` at a position, in increasing
/// order.
pub open spec fn nonzero_at(position: int, minimum: int, maximum: int) -> int {
    if minimum <= 0 <= maximum && position >= -minimum {
        minimum + position + 1
    } else {
        minimum + position
    }
}

/// A table of nonzero values in `minimum..=maximum`.
pub open spec fn nonzero_table(seed: Seq<u8>, count: nat, minimum: int, maximum: int) -> Option<
    Seq<i64>,
> {
    match stream::draws(seed, 0, nonzero_width(minimum, maximum) as nat, count) {
        None => None,
        Some((values, _)) => Some(
            Seq::new(count, |i: int| nonzero_at(values[i] as int, minimum, maximum) as i64),
        ),
    }
}

/// A table of values in `minimum..=maximum`.
pub open spec fn plain_table(seed: Seq<u8>, count: nat, minimum: int, maximum: int) -> Option<
    Seq<i64>,
> {
    match stream::draws(seed, 0, (maximum - minimum + 1) as nat, count) {
        None => None,
        Some((values, _)) => Some(Seq::new(count, |i: int| (minimum + values[i]) as i64)),
    }
}

/// The nonzero column displacement at a position of `-half..=half` without
/// zero, in increasing order.
pub open spec fn offset_at(position: nat, half: nat) -> int {
    if position < half {
        position - half
    } else {
        position - half + 1
    }
}

/// Inserts a value into an increasing sequence.
pub open spec fn sorted_insert(sorted: Seq<i32>, value: i32) -> Seq<i32>
    decreases sorted.len(),
{
    if sorted.len() == 0 || sorted.last() < value {
        sorted.push(value)
    } else {
        sorted_insert(sorted.drop_last(), value).push(sorted.last())
    }
}

/// Floyd's sampling without replacement: after `steps` steps, the sorted
/// displacements selected from the first `first + steps` positions, and the
/// stream position.
pub open spec fn selection(seed: Seq<u8>, from: nat, half: nat, first: nat, steps: nat) -> Option<
    (Seq<i32>, nat),
>
    decreases steps,
{
    if steps == 0 {
        Some((Seq::empty(), from))
    } else {
        let upper = (first + steps - 1) as nat;
        match selection(seed, from, half, first, (steps - 1) as nat) {
            None => None,
            Some((selected, at)) => match stream::draw(seed, at, upper + 1) {
                None => None,
                Some((position, next)) => {
                    let candidate = offset_at(position, half) as i32;
                    let chosen = if selected.contains(candidate) {
                        offset_at(upper, half) as i32
                    } else {
                        candidate
                    };
                    Some((sorted_insert(selected, chosen), next))
                },
            },
        }
    }
}

/// The displacements of `count` consecutive row patterns of `width` entries
/// each, and the stream position after them.
pub open spec fn patterns(seed: Seq<u8>, half: nat, width: nat, count: nat) -> Option<
    (Seq<i32>, nat),
>
    decreases count,
{
    if count == 0 {
        Some((Seq::empty(), 0))
    } else {
        match patterns(seed, half, width, (count - 1) as nat) {
            None => None,
            Some((offsets, at)) => match selection(
                seed,
                at,
                half,
                (2 * half - width) as nat,
                width,
            ) {
                None => None,
                Some((selected, next)) => Some((offsets + selected, next)),
            },
        }
    }
}

/// The positions `0..nonzero_width` name each nonzero value of a range exactly
/// once, in increasing order.
pub proof fn nonzero_values_are_in_range(first: int, second: int, minimum: int, maximum: int)
    requires
        minimum <= maximum,
        0 <= first < second < nonzero_width(minimum, maximum),
    ensures
        minimum <= nonzero_at(first, minimum, maximum) <= maximum,
        nonzero_at(first, minimum, maximum) != 0,
        nonzero_at(first, minimum, maximum) < nonzero_at(second, minimum, maximum) <= maximum,
        nonzero_at(second, minimum, maximum) != 0,
{
}

/// Every generated magnitude lies in its range, and every value is negative.
pub proof fn lemma_negative_table(seed: Seq<u8>, period: nat, minimum: nat, maximum: nat)
    requires
        minimum <= maximum <= i64::MAX,
    ensures
        negative_table(seed, period, minimum, maximum) matches Some(table) ==> table.len()
            == period && forall|i: int|
            0 <= i < period ==> -(maximum as int) <= #[trigger] table[i] <= -(minimum as int),
{
    let bound = (maximum - minimum + 1) as nat;
    stream::lemma_draws(seed, 0, bound, period);
    if let Some((values, _)) = stream::draws(seed, 0, bound, period) {
        let table = negative_table(seed, period, minimum, maximum).unwrap();
        assert forall|i: int| 0 <= i < period implies -(maximum as int) <= #[trigger] table[i]
            <= -(minimum as int) by {
            assert(values[i] < bound);
        }
    }
}

/// Every generated value lies in its range and differs from zero.
pub proof fn lemma_nonzero_table(seed: Seq<u8>, count: nat, minimum: int, maximum: int)
    requires
        i64::MIN <= minimum <= maximum <= i64::MAX,
        0 < nonzero_width(minimum, maximum),
    ensures
        nonzero_table(seed, count, minimum, maximum) matches Some(table) ==> table.len() == count
            && forall|i: int|
            0 <= i < count ==> minimum <= #[trigger] table[i] <= maximum && table[i] != 0,
{
    let bound = nonzero_width(minimum, maximum) as nat;
    stream::lemma_draws(seed, 0, bound, count);
    if let Some((values, _)) = stream::draws(seed, 0, bound, count) {
        let table = nonzero_table(seed, count, minimum, maximum).unwrap();
        assert forall|i: int| 0 <= i < count implies minimum <= #[trigger] table[i] <= maximum
            && table[i] != 0 by {
            assert(values[i] < bound);
        }
    }
}

/// Every generated value lies in its range.
pub proof fn lemma_plain_table(seed: Seq<u8>, count: nat, minimum: int, maximum: int)
    requires
        i64::MIN <= minimum <= maximum <= i64::MAX,
    ensures
        plain_table(seed, count, minimum, maximum) matches Some(table) ==> table.len() == count
            && forall|i: int| 0 <= i < count ==> minimum <= #[trigger] table[i] <= maximum,
{
    let bound = (maximum - minimum + 1) as nat;
    stream::lemma_draws(seed, 0, bound, count);
    if let Some((values, _)) = stream::draws(seed, 0, bound, count) {
        let table = plain_table(seed, count, minimum, maximum).unwrap();
        assert forall|i: int| 0 <= i < count implies minimum <= #[trigger] table[i] <= maximum by {
            assert(values[i] < bound);
        }
    }
}

/// Whether a sequence strictly increases.
pub open spec fn increasing(values: Seq<i32>) -> bool {
    forall|i: int, j: int| 0 <= i < j < values.len() ==> #[trigger] values[i] < #[trigger] values[j]
}

proof fn lemma_sorted_insert(sorted: Seq<i32>, value: i32)
    requires
        increasing(sorted),
        !sorted.contains(value),
    ensures
        increasing(sorted_insert(sorted, value)),
        sorted_insert(sorted, value).len() == sorted.len() + 1,
        forall|i: int|
            0 <= i < sorted.len() + 1 ==> #[trigger] sorted_insert(sorted, value)[i] == value
                || sorted.contains(sorted_insert(sorted, value)[i]),
    decreases sorted.len(),
{
    let result = sorted_insert(sorted, value);
    if sorted.len() == 0 || sorted.last() < value {
        assert forall|i: int| 0 <= i < result.len() implies #[trigger] result[i] == value
            || sorted.contains(result[i]) by {
            if i < sorted.len() {
                assert(sorted[i] == result[i]);
            }
        }
    } else {
        let head = sorted.drop_last();
        assert(!head.contains(value)) by {
            if head.contains(value) {
                let i = choose|i: int| 0 <= i < head.len() && head[i] == value;
                assert(sorted[i] == value);
            }
        }
        lemma_sorted_insert(head, value);
        assert(sorted.last() != value) by {
            assert(sorted[sorted.len() - 1] == sorted.last());
        }
        let inserted = sorted_insert(head, value);
        assert forall|i: int| 0 <= i < result.len() implies #[trigger] result[i] == value
            || sorted.contains(result[i]) by {
            if i < inserted.len() {
                assert(inserted[i] == result[i]);
                if inserted[i] != value {
                    let j = choose|j: int| 0 <= j < head.len() && head[j] == inserted[i];
                    assert(sorted[j] == result[i]);
                }
            } else {
                assert(sorted[sorted.len() - 1] == result[i]);
            }
        }
        assert forall|i: int, j: int| 0 <= i < j < result.len() implies #[trigger] result[i]
            < #[trigger] result[j] by {
            if j == inserted.len() {
                assert(inserted[i] == result[i]);
                if inserted[i] != value {
                    let l = choose|l: int| 0 <= l < head.len() && head[l] == inserted[i];
                    assert(sorted[l] < sorted[sorted.len() - 1]);
                }
            } else {
                assert(inserted[i] < inserted[j]);
            }
        }
    }
}

/// Sampled displacements increase strictly, differ from zero, and stay within
/// the band; exactly as many are sampled as were asked for.
pub proof fn lemma_selection(seed: Seq<u8>, from: nat, half: nat, first: nat, steps: nat)
    requires
        first + steps <= 2 * half,
        half <= i32::MAX,
    ensures
        selection(seed, from, half, first, steps) matches Some((selected, next)) ==> {
            &&& selected.len() == steps
            &&& increasing(selected)
            &&& forall|i: int|
                0 <= i < steps ==> #[trigger] selected[i] != 0 && -(half as int) <= selected[i]
                    <= half && (first + steps < 2 * half ==> selected[i] < offset_at(
                    first + steps,
                    half,
                ))
            &&& from <= next
            &&& from <= stream::STREAM_WORDS ==> next <= stream::STREAM_WORDS
        },
    decreases steps,
{
    if steps > 0 {
        lemma_selection(seed, from, half, first, (steps - 1) as nat);
        let upper = (first + steps - 1) as nat;
        if let Some((selected, at)) = selection(seed, from, half, first, (steps - 1) as nat) {
            stream::lemma_draw(seed, at, upper + 1);
            if let Some((position, next)) = stream::draw(seed, at, upper + 1) {
                let candidate = offset_at(position, half) as i32;
                let last = offset_at(upper, half) as i32;
                let chosen = if selected.contains(candidate) {
                    last
                } else {
                    candidate
                };
                assert(!selected.contains(chosen)) by {
                    if selected.contains(last) {
                        let i = choose|i: int| 0 <= i < selected.len() && selected[i] == last;
                        assert(selected[i] < offset_at(upper, half));
                    }
                }
                lemma_sorted_insert(selected, chosen);
                let result = sorted_insert(selected, chosen);
                assert forall|i: int| 0 <= i < steps implies #[trigger] result[i] != 0 && -(
                half as int) <= result[i] <= half && (first + steps < 2 * half ==> result[i]
                    < offset_at(first + steps, half)) by {
                    if result[i] != chosen {
                        let j = choose|j: int| 0 <= j < selected.len() && selected[j] == result[i];
                        assert(selected[j] != 0);
                    }
                }
            }
        }
    }
}

/// Every row pattern increases strictly, avoids zero, and stays in the band.
pub proof fn lemma_patterns(seed: Seq<u8>, half: nat, width: nat, count: nat)
    requires
        width <= 2 * half,
        half <= i32::MAX,
    ensures
        patterns(seed, half, width, count) matches Some((offsets, next)) ==> {
            &&& offsets.len() == count * width
            &&& next <= stream::STREAM_WORDS
            &&& forall|p: int, k: int|
                0 <= p < count && 0 <= k < width ==> {
                    let offset = #[trigger] offsets[p * width + k];
                    offset != 0 && -(half as int) <= offset <= half
                }
            &&& forall|p: int, k: int, l: int|
                0 <= p < count && 0 <= k < l < width ==> #[trigger] offsets[p * width + k]
                    < #[trigger] offsets[p * width + l]
        },
    decreases count,
{
    assert(0 * width == 0) by (nonlinear_arith);
    if count > 0 {
        let before = (count - 1) as nat;
        lemma_patterns(seed, half, width, before);
        if let Some((offsets, at)) = patterns(seed, half, width, before) {
            let first = (2 * half - width) as nat;
            lemma_selection(seed, at, half, first, width);
            if let Some((selected, next)) = selection(seed, at, half, first, width) {
                let result = offsets + selected;
                assert(before * width + width == count * width) by (nonlinear_arith)
                    requires
                        before == count - 1,
                ;
                assert forall|p: int, k: int| 0 <= p < count && 0 <= k < width implies {
                    let offset = #[trigger] result[p * width + k];
                    &&& offset != 0 && -(half as int) <= offset <= half
                    &&& p < before ==> 0 <= p * width + k < offsets.len() && offset == offsets[p
                        * width + k]
                    &&& p == before ==> offset == selected[k]
                } by {
                    if p < before {
                        assert(0 <= p * width && p * width + width <= before * width)
                            by (nonlinear_arith)
                            requires
                                0 <= p < before,
                                0 <= width,
                        ;
                        assert(result[p * width + k] == offsets[p * width + k]);
                    } else {
                        assert(p * width == before * width);
                        assert(result[p * width + k] == selected[k]);
                    }
                }
                assert forall|p: int, k: int, l: int|
                    0 <= p < count && 0 <= k < l < width implies #[trigger] result[p * width + k]
                    < #[trigger] result[p * width + l] by {
                    if p < before {
                        assert(offsets[p * width + k] < offsets[p * width + l]);
                    } else {
                        assert(selected[k] < selected[l]);
                    }
                }
            }
        }
    }
}

/// Appends a table of negative values with magnitudes in `minimum..=maximum`.
pub(crate) fn append_negative_table(
    table: &mut Vec<i64>,
    seed: InstanceSeed,
    period: usize,
    minimum: u64,
    maximum: u64,
) -> (filled: bool)
    requires
        minimum <= maximum <= problem::MAX_EXACT_BINARY64_MANTISSA,
    ensures
        (match negative_table(seed@, period as nat, minimum as nat, maximum as nat) {
            Some(values) => filled && final(table)@ == old(table)@ + values,
            None => !filled,
        }),
{
    let mut words = UniformStream::new(seed);
    let samples = match words.sample_many(maximum - minimum + 1, period) {
        Some(samples) => samples,
        None => {
            return false;
        },
    };
    let ghost start = table@;
    let ghost values = negative_table(
        seed@,
        period as nat,
        minimum as nat,
        maximum as nat,
    ).unwrap();
    proof {
        stream::lemma_draws(seed@, 0, (maximum - minimum + 1) as nat, period as nat);
    }
    let mut index: usize = 0;
    while index < samples.len()
        invariant
            index <= samples@.len(),
            values.len() == samples@.len(),
            minimum <= maximum <= problem::MAX_EXACT_BINARY64_MANTISSA,
            forall|i: int|
                0 <= i < samples@.len() ==> #[trigger] samples@[i] <= maximum - minimum
                    && values[i] == -(minimum + samples@[i]),
            table@ == start + values.take(index as int),
        decreases samples@.len() - index,
    {
        let magnitude: u64 = minimum + samples[index];
        table.push(-(magnitude as i64));
        proof {
            assert(values.take(index + 1) =~= values.take(index as int).push(
                values[index as int],
            ));
            assert(table@ =~= start + values.take(index + 1));
        }
        index = index + 1;
    }
    assert(values.take(index as int) =~= values);
    true
}

/// A table of values in `minimum..=maximum`; where zero is excluded it must not
/// be the only value.
fn sample_table(
    seed: InstanceSeed,
    count: usize,
    minimum: i64,
    maximum: i64,
    exclude_zero: bool,
) -> (table: Option<Vec<i64>>)
    requires
        minimum <= maximum,
        -(problem::MAX_EXACT_BINARY64_MANTISSA as int) <= minimum,
        maximum <= problem::MAX_EXACT_BINARY64_MANTISSA,
        exclude_zero ==> 0 < nonzero_width(minimum as int, maximum as int),
    ensures
        (match if exclude_zero {
            nonzero_table(seed@, count as nat, minimum as int, maximum as int)
        } else {
            plain_table(seed@, count as nat, minimum as int, maximum as int)
        } {
            Some(values) => table matches Some(table) && table@ == values,
            None => table is None,
        }),
{
    let skips_zero = exclude_zero && minimum <= 0 && maximum >= 0;
    let inclusive_width: u64 = (maximum - minimum + 1) as u64;
    let width: u64 = if skips_zero {
        inclusive_width - 1
    } else {
        inclusive_width
    };
    let mut words = UniformStream::new(seed);
    let samples = match words.sample_many(width, count) {
        Some(samples) => samples,
        None => {
            return None;
        },
    };
    let ghost values = if exclude_zero {
        nonzero_table(seed@, count as nat, minimum as int, maximum as int).unwrap()
    } else {
        plain_table(seed@, count as nat, minimum as int, maximum as int).unwrap()
    };
    proof {
        stream::lemma_draws(seed@, 0, width as nat, count as nat);
    }
    let mut table: Vec<i64> = Vec::with_capacity(count);
    let mut index: usize = 0;
    while index < samples.len()
        invariant
            index <= samples@.len(),
            samples@.len() == values.len(),
            table@ == values.take(index as int),
            minimum <= maximum,
            -(problem::MAX_EXACT_BINARY64_MANTISSA as int) <= minimum,
            maximum <= problem::MAX_EXACT_BINARY64_MANTISSA,
            skips_zero == (exclude_zero && minimum <= 0 && maximum >= 0),
            width == maximum - minimum + 1 - if skips_zero {
                1int
            } else {
                0
            },
            forall|i: int|
                0 <= i < samples@.len() ==> #[trigger] samples@[i] < width && values[i] == (
                if exclude_zero {
                    nonzero_at(samples@[i] as int, minimum as int, maximum as int)
                } else {
                    minimum + samples@[i]
                }) as i64,
        decreases samples@.len() - index,
    {
        let sample: i64 = samples[index] as i64;
        let value: i64 = if skips_zero && sample >= -minimum {
            minimum + sample + 1
        } else {
            minimum + sample
        };
        table.push(value);
        assert(table@ =~= values.take(index + 1));
        index = index + 1;
    }
    assert(values.take(index as int) =~= values);
    Some(table)
}

/// A table of nonzero values in `minimum..=maximum`.
pub(crate) fn sample_nonzero_table(seed: InstanceSeed, count: usize, minimum: i64, maximum: i64) -> (
    table: Option<Vec<i64>>)
    requires
        minimum <= maximum,
        minimum != 0 || maximum != 0,
        -(problem::MAX_EXACT_BINARY64_MANTISSA as int) <= minimum,
        maximum <= problem::MAX_EXACT_BINARY64_MANTISSA,
    ensures
        (match nonzero_table(seed@, count as nat, minimum as int, maximum as int) {
            Some(values) => table matches Some(table) && table@ == values,
            None => table is None,
        }),
{
    sample_table(seed, count, minimum, maximum, true)
}

/// A table of values in `minimum..=maximum`.
pub(crate) fn sample_plain_table(seed: InstanceSeed, count: usize, minimum: i64, maximum: i64) -> (
    table: Option<Vec<i64>>)
    requires
        minimum <= maximum,
        -(problem::MAX_EXACT_BINARY64_MANTISSA as int) <= minimum,
        maximum <= problem::MAX_EXACT_BINARY64_MANTISSA,
    ensures
        (match plain_table(seed@, count as nat, minimum as int, maximum as int) {
            Some(values) => table matches Some(table) && table@ == values,
            None => table is None,
        }),
{
    sample_table(seed, count, minimum, maximum, false)
}

/// One nonzero value in `minimum..=maximum`; nothing once the stream is used
/// up.
pub fn sample_nonzero_mantissa(words: &mut UniformStream, minimum: i64, maximum: i64) -> (value:
    Option<i64>)
    requires
        old(words).wf(),
        minimum <= maximum,
        minimum != 0 || maximum != 0,
    ensures
        final(words).wf(),
        final(words).seed() == old(words).seed(),
        (match stream::draw(
            old(words).seed(),
            old(words).position(),
            nonzero_width(minimum as int, maximum as int) as nat,
        ) {
            Some((position, next)) => value == Some(
                nonzero_at(position as int, minimum as int, maximum as int) as i64,
            ) && final(words).position() == next,
            None => value is None,
        }),
        value matches Some(found) ==> minimum <= found <= maximum && found != 0,
{
    let contains_zero = minimum <= 0 && maximum >= 0;
    let inclusive_width: i128 = maximum as i128 - minimum as i128 + 1;
    let width: u64 = if contains_zero {
        (inclusive_width - 1) as u64
    } else {
        inclusive_width as u64
    };
    match words.sample_below(width) {
        None => None,
        Some(sample) => {
            let shifted: i128 = minimum as i128 + sample as i128;
            if contains_zero && sample as i128 >= -(minimum as i128) {
                Some((shifted + 1) as i64)
            } else {
                Some(shifted as i64)
            }
        },
    }
}

fn signed_offset_from_population_index(index: u64, half_bandwidth: u64) -> (offset: i32)
    requires
        index < 2 * half_bandwidth,
        half_bandwidth <= i32::MAX,
    ensures
        offset == offset_at(index as nat, half_bandwidth as nat),
{
    if index < half_bandwidth {
        (index as i64 - half_bandwidth as i64) as i32
    } else {
        (index as i64 - half_bandwidth as i64 + 1) as i32
    }
}

fn insert_sorted(sorted: &mut Vec<i32>, value: i32)
    ensures
        final(sorted)@ == sorted_insert(old(sorted)@, value),
    decreases old(sorted)@.len(),
{
    if sorted.len() == 0 || sorted[sorted.len() - 1] < value {
        sorted.push(value);
    } else {
        match sorted.pop() {
            Some(last) => {
                insert_sorted(sorted, value);
                sorted.push(last);
            },
            None => {},
        }
    }
}

fn contains_offset(offsets: &Vec<i32>, value: i32) -> (found: bool)
    ensures
        found == offsets@.contains(value),
{
    let mut index: usize = 0;
    while index < offsets.len()
        invariant
            index <= offsets@.len(),
            forall|i: int| 0 <= i < index ==> #[trigger] offsets@[i] != value,
        decreases offsets@.len() - index,
    {
        if offsets[index] == value {
            assert(offsets@[index as int] == value);
            return true;
        }
        index = index + 1;
    }
    false
}

/// More steps can only fail where fewer do.
proof fn lemma_selection_prefix(
    seed: Seq<u8>,
    from: nat,
    half: nat,
    first: nat,
    fewer: nat,
    steps: nat,
)
    requires
        fewer <= steps,
    ensures
        selection(seed, from, half, first, fewer) is None ==> selection(
            seed,
            from,
            half,
            first,
            steps,
        ) is None,
    decreases steps,
{
    if fewer < steps {
        lemma_selection_prefix(seed, from, half, first, fewer, (steps - 1) as nat);
    }
}

/// Appends one uniformly sampled subset of nonzero signed offsets, sorted by
/// column displacement. Floyd's algorithm uses `O(count^2)` comparisons over
/// the bounded row width and never allocates a bandwidth-sized candidate set.
fn append_sampled_signed_offsets(
    offsets: &mut Vec<i32>,
    words: &mut UniformStream,
    half_bandwidth: u64,
    count: usize,
) -> (filled: bool)
    requires
        old(words).wf(),
        count <= 2 * half_bandwidth,
        half_bandwidth <= i32::MAX,
    ensures
        final(words).wf(),
        final(words).seed() == old(words).seed(),
        (match selection(
            old(words).seed(),
            old(words).position(),
            half_bandwidth as nat,
            (2 * half_bandwidth - count) as nat,
            count as nat,
        ) {
            Some((selected, next)) => filled && final(offsets)@ == old(offsets)@ + selected
                && final(words).position() == next && selected.len() == count && increasing(
                selected,
            ) && (forall|i: int|
                0 <= i < count ==> #[trigger] selected[i] != 0 && -(half_bandwidth as int)
                    <= selected[i] <= half_bandwidth),
            None => !filled,
        }),
{
    let ghost seed = words.seed();
    let ghost from = words.position();
    let ghost half = half_bandwidth as nat;
    let first: u64 = 2 * half_bandwidth - count as u64;
    let mut selected: Vec<i32> = Vec::with_capacity(count);
    let mut step: usize = 0;
    while step < count
        invariant
            words.wf(),
            words.seed() == seed,
            seed == old(words).seed(),
            from == old(words).position(),
            half == half_bandwidth,
            step <= count <= 2 * half_bandwidth,
            half_bandwidth <= i32::MAX,
            first == 2 * half_bandwidth - count,
            selection(seed, from, half, first as nat, step as nat) == Some(
                (selected@, words.position()),
            ),
        decreases count - step,
    {
        let upper: u64 = first + step as u64;
        proof {
            lemma_selection_prefix(
                seed,
                from,
                half,
                first as nat,
                (step + 1) as nat,
                count as nat,
            );
        }
        let position: u64 = match words.sample_below(upper + 1) {
            Some(position) => position,
            None => {
                return false;
            },
        };
        let candidate: i32 = signed_offset_from_population_index(position, half_bandwidth);
        let chosen: i32 = if contains_offset(&selected, candidate) {
            signed_offset_from_population_index(upper, half_bandwidth)
        } else {
            candidate
        };
        insert_sorted(&mut selected, chosen);
        step = step + 1;
    }
    offsets.extend_from_slice(selected.as_slice());
    assert(offsets@ =~= old(offsets)@ + selected@);
    proof {
        lemma_selection(seed, from, half, first as nat, count as nat);
    }
    true
}

proof fn lemma_patterns_prefix(seed: Seq<u8>, half: nat, width: nat, fewer: nat, count: nat)
    requires
        fewer <= count,
    ensures
        patterns(seed, half, width, fewer) is None ==> patterns(seed, half, width, count) is None,
    decreases count,
{
    if fewer < count {
        lemma_patterns_prefix(seed, half, width, fewer, (count - 1) as nat);
    }
}

/// The displacements of `count` row patterns of `width` entries each.
pub(crate) fn sample_patterns(seed: InstanceSeed, half_bandwidth: u64, width: usize, count: usize) -> (
    offsets: Option<Vec<i32>>)
    requires
        width <= 2 * half_bandwidth,
        half_bandwidth <= i32::MAX,
    ensures
        (match patterns(seed@, half_bandwidth as nat, width as nat, count as nat) {
            Some((expected, _)) => offsets matches Some(offsets) && offsets@ == expected,
            None => offsets is None,
        }),
{
    let ghost half = half_bandwidth as nat;
    let mut words = UniformStream::new(seed);
    let mut offsets: Vec<i32> = Vec::new();
    let mut index: usize = 0;
    while index < count
        invariant
            words.wf(),
            words.seed() == seed@,
            half == half_bandwidth,
            index <= count,
            width <= 2 * half_bandwidth,
            half_bandwidth <= i32::MAX,
            patterns(seed@, half, width as nat, index as nat) == Some(
                (offsets@, words.position()),
            ),
        decreases count - index,
    {
        proof {
            lemma_patterns_prefix(
                seed@,
                half,
                width as nat,
                (index + 1) as nat,
                count as nat,
            );
        }
        if !append_sampled_signed_offsets(&mut offsets, &mut words, half_bandwidth, width) {
            return None;
        }
        index = index + 1;
    }
    Some(offsets)
}

} // verus!
