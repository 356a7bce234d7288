//! What seeded compilation draws, and what it makes of each draw.

use vstd::arithmetic::power2::*;
use vstd::prelude::*;

use crate::bytes;
use crate::generator;
use crate::generator::{GeneratedModel, RhsModel};
use crate::hashing;
use crate::matrix::MatrixModel;
use crate::powers;
use crate::problem;
use crate::problem::{MatrixRecipe, ProblemError, ProblemModel, RhsSpec};
use crate::randomness;
use crate::sampling;
use crate::stream;
use crate::text;

verus! {

/// The eight bytes of a seed's stream that one word is read from.
pub open spec fn word_bytes(seed: Seq<u8>, index: nat) -> Seq<u8> {
    Seq::new(
        8,
        |i: int|
            hashing::blake3_derived_byte(
                "sparse-solve/unbiased-u64-stream/v1"@,
                seed,
                (8 * index + i) as nat,
            ),
    )
}

/// A draw is the first word at or after its place that the rejection rule keeps,
/// reduced below the bound: the words before it fall into the incomplete copy of
/// the bound at the start of the 64-bit range, and it does not. The stream goes
/// on right behind it.
pub proof fn draws_reduce_the_first_kept_word(seed: Seq<u8>, from: nat, bound: nat)
    requires
        0 < bound,
    ensures
        match stream::draw(seed, from, bound) {
            Some((value, next)) => {
                let word = bytes::le_value(word_bytes(seed, (next - 1) as nat));
                &&& from < next <= stream::STREAM_WORDS
                &&& value < bound
                &&& word % bound == value
                &&& word >= 0x1_0000_0000_0000_0000nat % bound
                &&& forall|i: nat|
                    from <= i < next - 1 ==> bytes::le_value(#[trigger] word_bytes(seed, i))
                        < 0x1_0000_0000_0000_0000nat % bound
            },
            None => forall|i: nat|
                from <= i < stream::STREAM_WORDS ==> bytes::le_value(#[trigger] word_bytes(seed, i))
                    < 0x1_0000_0000_0000_0000nat % bound,
        },
    decreases stream::STREAM_WORDS - from,
{
    assert(word_bytes(seed, from) =~= hashing::blake3_derived_bytes(
        stream::UNBIASED_STREAM_CONTEXT@,
        seed,
        8 * from,
        8,
    ));
    let word = stream::stream_word(seed, from);
    if from < stream::STREAM_WORDS {
        if word >= stream::rejection_threshold(bound) {
            assert(word % bound < bound) by (nonlinear_arith)
                requires
                    0 < bound,
            ;
        } else {
            draws_reduce_the_first_kept_word(seed, from + 1, bound);
        }
    }
}

/// Several draws follow one another on the stream: each starts where the one
/// before it ended, and stands at its own place in the list.
pub proof fn draws_follow_one_another(seed: Seq<u8>, from: nat, bound: nat, count: nat, index: nat)
    requires
        index < count,
    ensures
        stream::draws(seed, from, bound, count) matches Some((values, next)) ==> {
            &&& values.len() == count
            &&& stream::draws(seed, from, bound, index) matches Some((before, at))
            &&& before == values.take(index as int)
            &&& stream::draw(seed, at, bound) matches Some((value, after))
            &&& value == values[index as int]
            &&& index + 1 == count ==> after == next
        },
        stream::draws(seed, from, bound, 0) == Some((Seq::<nat>::empty(), from)),
    decreases count,
{
    if index + 1 < count {
        draws_follow_one_another(seed, from, bound, (count - 1) as nat, index);
        if let Some((values, next)) = stream::draws(seed, from, bound, count) {
            let (fewer, _) = stream::draws(seed, from, bound, (count - 1) as nat)->0;
            assert(fewer.take(index as int) =~= values.take(index as int));
        }
    } else {
        if index > 0 {
            draws_follow_one_another(
                seed,
                from,
                bound,
                (count - 1) as nat,
                (index - 1) as nat,
            );
        }
        if let Some((values, next)) = stream::draws(seed, from, bound, count) {
            let (fewer, _) = stream::draws(seed, from, bound, (count - 1) as nat)->0;
            assert(fewer =~= values.take(index as int));
        }
    }
}

/// How many integers of `minimum..value` a sampler can give, zero left out or
/// not.
pub open spec fn values_below(minimum: int, value: int, without_zero: bool) -> int {
    value - minimum - (if without_zero && minimum <= 0 < value {
        1int
    } else {
        0
    })
}

/// How many integers of `minimum..=maximum` a sampler can give.
pub open spec fn values_between(minimum: int, maximum: int, without_zero: bool) -> nat {
    values_below(minimum, maximum + 1, without_zero) as nat
}

/// Entry `index` of a table of nonzero values is the one with as many admissible
/// values below it as its draw says, so that every admissible value is the entry
/// of exactly one draw.
pub proof fn nonzero_entries_rank_as_drawn(
    seed: Seq<u8>,
    count: nat,
    minimum: int,
    maximum: int,
    index: int,
)
    requires
        i64::MIN <= minimum <= maximum <= i64::MAX,
        minimum != 0 || maximum != 0,
        0 <= index < count,
    ensures
        sampling::nonzero_table(seed, count, minimum, maximum) matches Some(table) ==> {
            &&& table.len() == count
            &&& minimum <= table[index] <= maximum
            &&& table[index] != 0
            &&& stream::draws(seed, 0, values_between(minimum, maximum, true), count) matches Some(
                (drawn, _),
            )
            &&& values_below(minimum, table[index] as int, true) == drawn[index]
        },
        sampling::nonzero_table(seed, count, minimum, maximum) is None ==> stream::draws(
            seed,
            0,
            values_between(minimum, maximum, true),
            count,
        ) is None,
{
    sampling::lemma_nonzero_table(seed, count, minimum, maximum);
    stream::lemma_draws(seed, 0, values_between(minimum, maximum, true), count);
    assert(sampling::nonzero_width(minimum, maximum) == values_between(minimum, maximum, true));
    if let Some((drawn, _)) = stream::draws(
        seed,
        0,
        values_between(minimum, maximum, true),
        count,
    ) {
        assert(drawn[index] < values_between(minimum, maximum, true));
    }
}

/// Entry `index` of a table of values is the one with as many admissible values
/// below it as its draw says.
pub proof fn plain_entries_rank_as_drawn(
    seed: Seq<u8>,
    count: nat,
    minimum: int,
    maximum: int,
    index: int,
)
    requires
        i64::MIN <= minimum <= maximum <= i64::MAX,
        0 <= index < count,
    ensures
        sampling::plain_table(seed, count, minimum, maximum) matches Some(table) ==> {
            &&& table.len() == count
            &&& minimum <= table[index] <= maximum
            &&& stream::draws(seed, 0, values_between(minimum, maximum, false), count)
                matches Some((drawn, _))
            &&& values_below(minimum, table[index] as int, false) == drawn[index]
        },
        sampling::plain_table(seed, count, minimum, maximum) is None ==> stream::draws(
            seed,
            0,
            values_between(minimum, maximum, false),
            count,
        ) is None,
{
    sampling::lemma_plain_table(seed, count, minimum, maximum);
    stream::lemma_draws(seed, 0, values_between(minimum, maximum, false), count);
    if let Some((drawn, _)) = stream::draws(
        seed,
        0,
        values_between(minimum, maximum, false),
        count,
    ) {
        assert(drawn[index] < values_between(minimum, maximum, false));
    }
}

/// Entry `index` of a table of negative values has the magnitude with as many
/// admissible magnitudes below it as its draw says.
pub proof fn negative_entries_rank_as_drawn(
    seed: Seq<u8>,
    count: nat,
    minimum: nat,
    maximum: nat,
    index: int,
)
    requires
        minimum <= maximum <= i64::MAX,
        0 <= index < count,
    ensures
        sampling::negative_table(seed, count, minimum, maximum) matches Some(table) ==> {
            &&& table.len() == count
            &&& -(maximum as int) <= table[index] <= -(minimum as int)
            &&& stream::draws(
                seed,
                0,
                values_between(minimum as int, maximum as int, false),
                count,
            ) matches Some((drawn, _))
            &&& values_below(minimum as int, -(table[index] as int), false) == drawn[index]
        },
        sampling::negative_table(seed, count, minimum, maximum) is None ==> stream::draws(
            seed,
            0,
            values_between(minimum as int, maximum as int, false),
            count,
        ) is None,
{
    let width = values_between(minimum as int, maximum as int, false);
    sampling::lemma_negative_table(seed, count, minimum, maximum);
    stream::lemma_draws(seed, 0, width, count);
    if let Some((drawn, _)) = stream::draws(seed, 0, width, count) {
        assert(drawn[index] < width);
    }
}

proof fn lemma_insert_members(sorted: Seq<i32>, value: i32, member: i32)
    ensures
        sampling::sorted_insert(sorted, value).contains(member) <==> sorted.contains(member)
            || member == value,
    decreases sorted.len(),
{
    let result = sampling::sorted_insert(sorted, value);
    if sorted.len() == 0 || sorted.last() < value {
        assert(result[sorted.len() as int] == value);
        if sorted.contains(member) {
            let i = choose|i: int| 0 <= i < sorted.len() && sorted[i] == member;
            assert(result[i] == member);
        }
        if result.contains(member) && member != value {
            let i = choose|i: int| 0 <= i < result.len() && result[i] == member;
            assert(sorted[i] == member);
        }
    } else {
        let head = sorted.drop_last();
        let inserted = sampling::sorted_insert(head, value);
        lemma_insert_members(head, value, member);
        assert(result == inserted.push(sorted.last()));
        if inserted.contains(member) {
            let i = choose|i: int| 0 <= i < inserted.len() && inserted[i] == member;
            assert(result[i] == member);
        }
        if head.contains(member) {
            let i = choose|i: int| 0 <= i < head.len() && head[i] == member;
            assert(sorted[i] == member);
        }
        assert(result[inserted.len() as int] == sorted.last());
        assert(sorted[sorted.len() - 1] == sorted.last());
        if result.contains(member) {
            let i = choose|i: int| 0 <= i < result.len() && result[i] == member;
            if i < inserted.len() {
                assert(inserted[i] == member);
            }
        }
        if sorted.contains(member) && member != sorted.last() {
            let i = choose|i: int| 0 <= i < sorted.len() && sorted[i] == member;
            assert(head[i] == member);
        }
    }
}

/// Whether a displacement is the one at a position of a band, counted upwards
/// from its lowest one with zero left out.
pub open spec fn stands_at(displacement: i32, half: nat, position: nat) -> bool {
    &&& displacement != 0
    &&& -(half as int) <= displacement <= half
    &&& values_below(-(half as int), displacement as int, true) == position
}

/// One step of sampling a row pattern adds one displacement: that of the drawn
/// position where it is new, and that of the highest position so far only where
/// the drawn one is already there. What was selected before stays.
pub proof fn fresh_positions_join_the_pattern(
    seed: Seq<u8>,
    from: nat,
    half: nat,
    first: nat,
    steps: nat,
    drawn: i32,
    highest: i32,
)
    requires
        0 < steps,
        first + steps <= 2 * half,
        half <= i32::MAX,
    ensures
        sampling::selection(seed, from, half, first, steps) matches Some((selected, next)) ==> {
            &&& sampling::selection(seed, from, half, first, (steps - 1) as nat) matches Some(
                (before, at),
            )
            &&& stream::draw(seed, at, first + steps) matches Some((position, after))
            &&& after == next
            &&& stands_at(drawn, half, position) && stands_at(
                highest,
                half,
                (first + steps - 1) as nat,
            ) ==> forall|member: i32| #[trigger]
                selected.contains(member) <==> before.contains(member) || member == (
                if before.contains(drawn) {
                    highest
                } else {
                    drawn
                })
        },
        sampling::selection(seed, from, half, first, 0) == Some((Seq::<i32>::empty(), from)),
{
    sampling::lemma_selection(seed, from, half, first, steps);
    if let Some((selected, next)) = sampling::selection(seed, from, half, first, steps) {
        let (before, at) = sampling::selection(seed, from, half, first, (steps - 1) as nat)->0;
        stream::lemma_draw(seed, at, first + steps);
        let (position, _) = stream::draw(seed, at, first + steps)->0;
        if stands_at(drawn, half, position) && stands_at(
            highest,
            half,
            (first + steps - 1) as nat,
        ) {
            assert(sampling::offset_at(position, half) as i32 == drawn);
            assert(sampling::offset_at((first + steps - 1) as nat, half) as i32 == highest);
            let chosen = if before.contains(drawn) {
                highest
            } else {
                drawn
            };
            assert forall|member: i32| #[trigger] selected.contains(member) <==> before.contains(
                member,
            ) || member == chosen by {
                lemma_insert_members(before, chosen, member);
            }
        }
    }
}

/// A pattern of one entry is the displacement of the one position that is drawn
/// from the whole band.
pub proof fn single_entries_are_the_drawn_position(seed: Seq<u8>, from: nat, half: nat)
    requires
        0 < half <= i32::MAX,
    ensures
        sampling::selection(seed, from, half, (2 * half - 1) as nat, 1) matches Some(
            (selected, next),
        ) ==> {
            &&& stream::draw(seed, from, 2 * half) matches Some((position, after))
            &&& after == next
            &&& selected.len() == 1
            &&& stands_at(selected[0], half, position)
        },
{
    reveal_with_fuel(sampling::selection, 3);
    let first = (2 * half - 1) as nat;
    sampling::lemma_selection(seed, from, half, first, 1);
    if let Some((selected, next)) = sampling::selection(seed, from, half, first, 1) {
        stream::lemma_draw(seed, from, 2 * half);
        let (position, _) = stream::draw(seed, from, 2 * half)->0;
        let drawn = sampling::offset_at(position, half) as i32;
        fresh_positions_join_the_pattern(seed, from, half, first, 1, drawn, half as i32);
        assert(!Seq::<i32>::empty().contains(drawn));
        assert(stands_at(drawn, half, position));
        assert(stands_at(half as i32, half, first));
        assert(selected.contains(selected[0]));
    }
}

/// Row patterns follow one another on one stream: the first starts at its
/// beginning, each next one where the pattern before it ended.
pub proof fn patterns_follow_one_another(seed: Seq<u8>, half: nat, width: nat, count: nat)
    requires
        0 < count,
        width <= 2 * half,
        half <= i32::MAX,
    ensures
        sampling::patterns(seed, half, width, count) matches Some((offsets, next)) ==> {
            &&& offsets.len() == count * width
            &&& sampling::patterns(seed, half, width, (count - 1) as nat) matches Some((before, at))
            &&& before.len() == (count - 1) * width
            &&& offsets.take(before.len() as int) == before
            &&& sampling::selection(seed, at, half, (2 * half - width) as nat, width) == Some(
                (offsets.skip(before.len() as int), next),
            )
        },
        sampling::patterns(seed, half, width, 0) == Some((Seq::<i32>::empty(), 0nat)),
{
    sampling::lemma_patterns(seed, half, width, count);
    sampling::lemma_patterns(seed, half, width, (count - 1) as nat);
    if let Some((offsets, next)) = sampling::patterns(seed, half, width, count) {
        let (before, at) = sampling::patterns(seed, half, width, (count - 1) as nat)->0;
        assert(offsets.take(before.len() as int) =~= before);
        let (selected, _) = sampling::selection(
            seed,
            at,
            half,
            (2 * half - width) as nat,
            width,
        )->0;
        assert(offsets.skip(before.len() as int) =~= selected);
    }
}

/// The seed of the stream that a label names under an instance seed.
pub open spec fn stream_of(seed: Seq<u8>, label: Seq<char>) -> Seq<u8> {
    randomness::subseed_bytes(seed, vstd::utf8::encode_utf8(label))
}

/// A tridiagonal matrix keeps the dimension, scale and margin of its recipe. It
/// has one edge value for each index of the period, each drawn in turn from the
/// stream of its own label.
pub proof fn tridiagonal_matrices_are_drawn(recipe: MatrixRecipe, seed: Seq<u8>, index: int)
    requires
        recipe is Tridiagonal,
        problem::matrix_error(recipe) is None,
        0 <= index < pow2(recipe->Tridiagonal_period_bits as nat),
    ensures
        generator::compiled_matrix(recipe, seed) matches Some(compiled) ==> {
            let minimum = recipe->Tridiagonal_minimum as int;
            let maximum = recipe->Tridiagonal_maximum as int;
            let table = compiled->Tridiagonal_table;
            let labelled = stream_of(
                seed,
                "matrix/seeded-symmetric-tridiagonal-v1/off-diagonal-values"@,
            );
            &&& compiled is Tridiagonal
            &&& compiled->Tridiagonal_dimension == recipe->Tridiagonal_dimension
            &&& compiled->Tridiagonal_fractional_bits == recipe->Tridiagonal_fractional_bits
            &&& compiled->Tridiagonal_margin == recipe->Tridiagonal_margin
            &&& table.len() == pow2(recipe->Tridiagonal_period_bits as nat)
            &&& table[index] < 0
            &&& stream::draws(
                labelled,
                0,
                values_between(minimum, maximum, false),
                table.len(),
            ) matches Some((drawn, _))
            &&& values_below(minimum, -(table[index] as int), false) == drawn[index]
        },
{
    negative_entries_rank_as_drawn(
        generator::labelled(seed, generator::MATRIX_VALUES_LABEL),
        pow2(recipe->Tridiagonal_period_bits as nat),
        recipe->Tridiagonal_minimum as nat,
        recipe->Tridiagonal_maximum as nat,
        index,
    );
}

proof fn lemma_edge_table(
    family_seed: Seq<u8>,
    edges: Seq<problem::SymmetricDiaEdge>,
    count: nat,
    edge: int,
)
    requires
        0 <= edge < count,
    ensures
        generator::compiled_edges(family_seed, edges, count) matches Some(tables) ==> {
            &&& tables.len() == count
            &&& tables[edge].offset == edges[edge].positive_offset
            &&& sampling::negative_table(
                randomness::subseed_bytes(
                    family_seed,
                    generator::edge_label(edge as nat, edges[edge].positive_offset as nat),
                ),
                pow2(edges[edge].period_bits as nat),
                edges[edge].minimum_weight_mantissa as nat,
                edges[edge].maximum_weight_mantissa as nat,
            ) == Some(tables[edge].table)
        },
    decreases count,
{
    if edge < count - 1 {
        lemma_edge_table(family_seed, edges, (count - 1) as nat, edge);
    } else if count > 1 {
        lemma_edge_table(family_seed, edges, (count - 1) as nat, 0);
    }
}

/// A shifted Laplacian keeps the dimension, scale and shift of its recipe and
/// the offset of each edge diagonal. Each diagonal has one value for each index
/// of its own period, drawn in turn from a stream that is named by the diagonal's
/// place and offset.
pub proof fn laplacian_matrices_are_drawn(
    recipe: MatrixRecipe,
    seed: Seq<u8>,
    edge: int,
    index: int,
)
    requires
        recipe is DiaLaplacian,
        problem::matrix_error(recipe) is None,
        0 <= edge < recipe->DiaLaplacian_edges.len(),
        0 <= index < pow2(recipe->DiaLaplacian_edges[edge].period_bits as nat),
    ensures
        generator::compiled_matrix(recipe, seed) matches Some(compiled) ==> {
            let stated = recipe->DiaLaplacian_edges[edge];
            let minimum = stated.minimum_weight_mantissa as int;
            let maximum = stated.maximum_weight_mantissa as int;
            let table = compiled->DiaLaplacian_edges[edge].table;
            let labelled = randomness::subseed_bytes(
                stream_of(seed, "matrix/seeded-symmetric-dia-laplacian-v1/edge-values"@),
                generator::edge_label(edge as nat, stated.positive_offset as nat),
            );
            &&& compiled is DiaLaplacian
            &&& compiled->DiaLaplacian_dimension == recipe->DiaLaplacian_dimension
            &&& compiled->DiaLaplacian_fractional_bits == recipe->DiaLaplacian_fractional_bits
            &&& compiled->DiaLaplacian_shift == recipe->DiaLaplacian_shift
            &&& compiled->DiaLaplacian_edges.len() == recipe->DiaLaplacian_edges.len()
            &&& compiled->DiaLaplacian_edges[edge].offset == stated.positive_offset
            &&& table.len() == pow2(stated.period_bits as nat)
            &&& table[index] < 0
            &&& stream::draws(
                labelled,
                0,
                values_between(minimum, maximum, false),
                table.len(),
            ) matches Some((drawn, _))
            &&& values_below(minimum, -(table[index] as int), false) == drawn[index]
        },
{
    let edges = recipe->DiaLaplacian_edges;
    let family = generator::labelled(seed, generator::DIA_MATRIX_VALUES_LABEL);
    generator::lemma_edges_valid(edges, recipe.dimension(), edges.len());
    assert(problem::edge_error(edges, recipe.dimension(), edge) is None);
    lemma_incident_share(edges, edges.len(), edge);
    lemma_edge_table(family, edges, edges.len(), edge);
    negative_entries_rank_as_drawn(
        randomness::subseed_bytes(
            family,
            generator::edge_label(edge as nat, edges[edge].positive_offset as nat),
        ),
        pow2(edges[edge].period_bits as nat),
        edges[edge].minimum_weight_mantissa as nat,
        edges[edge].maximum_weight_mantissa as nat,
        index,
    );
}

/// No single weight exceeds the bound over all of them.
proof fn lemma_incident_share(edges: Seq<problem::SymmetricDiaEdge>, count: nat, edge: int)
    requires
        0 <= edge < count,
    ensures
        2 * edges[edge].maximum_weight_mantissa <= problem::incident_bound(edges, count),
    decreases count,
{
    if edge < count - 1 {
        lemma_incident_share(edges, (count - 1) as nat, edge);
    }
}

/// A row-sparse matrix keeps the dimension and scale of its recipe. Its sparsity
/// patterns, off-diagonal values and diagonal values come from three streams of
/// their own, value after value.
pub proof fn row_sparse_matrices_are_drawn(
    recipe: MatrixRecipe,
    seed: Seq<u8>,
    index: int,
    pattern: int,
)
    requires
        recipe is RowSparse,
        problem::matrix_error(recipe) is None,
        0 <= pattern < generator::row_patterns(
            recipe->row_pattern_bits,
            recipe->RowSparse_dimension as nat,
        ),
    ensures
        generator::compiled_matrix(recipe, seed) matches Some(compiled) ==> {
            let minimum = recipe->RowSparse_minimum as int;
            let maximum = recipe->RowSparse_maximum as int;
            let choices = values_between(minimum, maximum, true);
            let values = compiled->values;
            let diagonal = compiled->diagonal;
            &&& compiled is RowSparse
            &&& compiled->RowSparse_dimension == recipe->RowSparse_dimension
            &&& compiled->RowSparse_fractional_bits == recipe->RowSparse_fractional_bits
            &&& compiled->width == recipe->row_width - 1
            &&& diagonal.len() == generator::row_patterns(
                recipe->row_pattern_bits,
                recipe->RowSparse_dimension as nat,
            )
            &&& values.len() == diagonal.len() * compiled->width
            &&& sampling::patterns(
                stream_of(seed, "matrix/seeded-nonsymmetric-row-sparse-v1/structure"@),
                recipe->half_bandwidth as nat,
                compiled->width,
                diagonal.len(),
            ) matches Some((offsets, _))
            &&& compiled->offsets == offsets
            &&& stream::draws(
                stream_of(seed, "matrix/seeded-nonsymmetric-row-sparse-v1/off-diagonal-values"@),
                0,
                choices,
                values.len(),
            ) matches Some((off_diagonal, _))
            &&& 0 <= index < values.len() ==> values_below(minimum, values[index] as int, true)
                == off_diagonal[index]
            &&& stream::draws(
                stream_of(seed, "matrix/seeded-nonsymmetric-row-sparse-v1/diagonal-values"@),
                0,
                choices,
                diagonal.len(),
            ) matches Some((on_diagonal, _))
            &&& values_below(minimum, diagonal[pattern] as int, true) == on_diagonal[pattern]
        },
{
    let period = generator::row_patterns(
        recipe->row_pattern_bits,
        recipe->RowSparse_dimension as nat,
    );
    let width = (recipe->row_width - 1) as nat;
    let off_diagonal = generator::labelled(seed, generator::NONSYMMETRIC_OFF_DIAGONAL_VALUES_LABEL);
    sampling::lemma_nonzero_table(
        off_diagonal,
        period * width,
        recipe->RowSparse_minimum as int,
        recipe->RowSparse_maximum as int,
    );
    if 0 <= index < period * width {
        nonzero_entries_rank_as_drawn(
            off_diagonal,
            period * width,
            recipe->RowSparse_minimum as int,
            recipe->RowSparse_maximum as int,
            index,
        );
    }
    nonzero_entries_rank_as_drawn(
        generator::labelled(seed, generator::NONSYMMETRIC_DIAGONAL_VALUES_LABEL),
        period,
        recipe->RowSparse_minimum as int,
        recipe->RowSparse_maximum as int,
        pattern,
    );
}

/// A row-sparse matrix has as many row patterns as its recipe asks for, or as
/// many as the padded dimension where that is less.
pub proof fn row_patterns_are_capped(row_pattern_bits: u8, dimension: nat)
    ensures
        generator::row_patterns(row_pattern_bits, dimension) <= pow2(row_pattern_bits as nat),
        generator::row_patterns(row_pattern_bits, dimension) <= powers::padded(dimension),
        generator::row_patterns(row_pattern_bits, dimension) == pow2(row_pattern_bits as nat)
            || generator::row_patterns(row_pattern_bits, dimension) == powers::padded(dimension),
{
}

/// A seeded right-hand side keeps the scale of its recipe and the dimension of
/// its matrix. It has one value for each index of its period, each drawn in turn
/// from the stream of its own label.
pub proof fn seeded_rhs_is_drawn(
    rhs: RhsSpec,
    compiled_for: MatrixModel,
    seed: Seq<u8>,
    index: int,
)
    requires
        rhs is SeededPeriodicDyadicV1,
        problem::rhs_error(rhs) is None,
        0 <= index < pow2(rhs->period_bits as nat),
    ensures
        generator::compiled_rhs(rhs, compiled_for, seed) matches Ok(compiled) ==> {
            let minimum = rhs->minimum_mantissa as int;
            let table = compiled->table;
            &&& compiled is Periodic
            &&& compiled->Periodic_dimension == compiled_for.dimension()
            &&& compiled->Periodic_fractional_bits == rhs->fractional_bits
            &&& table.len() == pow2(rhs->period_bits as nat)
            &&& stream::draws(
                stream_of(seed, "rhs/seeded-periodic-dyadic-v1/values"@),
                0,
                values_between(minimum, rhs->maximum_mantissa as int, false),
                table.len(),
            ) matches Some((drawn, _))
            &&& values_below(minimum, table[index] as int, false) == drawn[index]
        },
{
    plain_entries_rank_as_drawn(
        generator::labelled(seed, generator::RHS_VALUES_LABEL),
        pow2(rhs->period_bits as nat),
        rhs->minimum_mantissa as int,
        rhs->maximum_mantissa as int,
        index,
    );
}

/// No two tables share a stream: the labels of the tridiagonal values, the edge
/// values, the structure, the off-diagonal values, the diagonal values and the
/// right-hand side are six different ones.
pub proof fn table_labels_are_distinct()
    ensures
        ({
            let labels = seq![
                generator::MATRIX_VALUES_LABEL@,
                generator::DIA_MATRIX_VALUES_LABEL@,
                generator::NONSYMMETRIC_STRUCTURE_LABEL@,
                generator::NONSYMMETRIC_OFF_DIAGONAL_VALUES_LABEL@,
                generator::NONSYMMETRIC_DIAGONAL_VALUES_LABEL@,
                generator::RHS_VALUES_LABEL@,
            ];
            forall|i: int, j: int| 0 <= i < j < 6 ==> #[trigger] labels[i] != #[trigger] labels[j]
        }),
{
    reveal_strlit("matrix/seeded-symmetric-tridiagonal-v1/off-diagonal-values");
    reveal_strlit("matrix/seeded-symmetric-dia-laplacian-v1/edge-values");
    reveal_strlit("matrix/seeded-nonsymmetric-row-sparse-v1/structure");
    reveal_strlit("matrix/seeded-nonsymmetric-row-sparse-v1/off-diagonal-values");
    reveal_strlit("matrix/seeded-nonsymmetric-row-sparse-v1/diagonal-values");
    reveal_strlit("rhs/seeded-periodic-dyadic-v1/values");
    assert(generator::MATRIX_VALUES_LABEL@.len() == 58);
    assert(generator::DIA_MATRIX_VALUES_LABEL@.len() == 52);
    assert(generator::NONSYMMETRIC_STRUCTURE_LABEL@.len() == 50);
    assert(generator::NONSYMMETRIC_OFF_DIAGONAL_VALUES_LABEL@.len() == 60);
    assert(generator::NONSYMMETRIC_DIAGONAL_VALUES_LABEL@.len() == 56);
    assert(generator::RHS_VALUES_LABEL@.len() == 36);
}

/// No two edge diagonals share a stream: their labels determine place and
/// offset.
pub proof fn edge_labels_are_distinct(
    first: nat,
    first_offset: nat,
    second: nat,
    second_offset: nat,
)
    requires
        generator::edge_label(first, first_offset) == generator::edge_label(second, second_offset),
    ensures
        first == second,
        first_offset == second_offset,
{
    let prefix = vstd::utf8::encode_utf8(generator::EDGE_LABEL_PREFIX@);
    let middle = vstd::utf8::encode_utf8(generator::EDGE_LABEL_OFFSET@);
    let first_digits = text::decimal(first);
    let second_digits = text::decimal(second);
    let left = generator::edge_label(first, first_offset);
    let right = generator::edge_label(second, second_offset);
    text::lemma_decimal_spells(first);
    text::lemma_decimal_spells(second);
    text::lemma_decimal_spells(first_offset);
    text::lemma_decimal_spells(second_offset);
    lemma_slash();
    let start = prefix.len() as int;
    if first_digits.len() < second_digits.len() {
        let at = start + first_digits.len();
        assert(left[at] == middle[0]);
        assert(right[at] == second_digits[first_digits.len() as int]);
    }
    if second_digits.len() < first_digits.len() {
        let at = start + second_digits.len();
        assert(right[at] == middle[0]);
        assert(left[at] == first_digits[second_digits.len() as int]);
    }
    let end = start + first_digits.len();
    assert(left.subrange(start, end) =~= first_digits);
    assert(right.subrange(start, end) =~= second_digits);
    assert(left.skip(end + middle.len()) =~= text::decimal(first_offset));
    assert(right.skip(end + middle.len()) =~= text::decimal(second_offset));
}

/// What separates place and offset begins with a slash, which is no digit.
proof fn lemma_slash()
    ensures
        vstd::utf8::encode_utf8(generator::EDGE_LABEL_OFFSET@).len() > 0,
        !text::is_digit(vstd::utf8::encode_utf8(generator::EDGE_LABEL_OFFSET@)[0]),
{
    reveal_strlit("/offset/");
    let text = generator::EDGE_LABEL_OFFSET@;
    assert(vstd::utf8::is_ascii_chars(text));
    vstd::utf8::is_ascii_chars_encode_utf8(text);
    assert(text[0] == '/');
}

/// A compiled problem carries the digest of the problem and the seed that its
/// randomness record holds, and its matrix and right-hand side come from that
/// seed.
pub proof fn compiled_problems_keep_their_identity(problem: ProblemModel, compiled: GeneratedModel)
    requires
        generator::compiled_problem(problem) == Ok::<GeneratedModel, ProblemError>(compiled),
    ensures
        problem.error() is None,
        compiled.digest == problem::problem_digest(problem),
        compiled.seed == problem.randomness.seed(),
        generator::compiled_matrix(problem.matrix, compiled.seed) == Some(compiled.matrix),
        generator::compiled_rhs(problem.rhs, compiled.matrix, compiled.seed) == Ok::<
            RhsModel,
            ProblemError,
        >(compiled.rhs),
        compiled.matrix.dimension() == problem.matrix.dimension(),
        compiled.rhs.dimension() == problem.matrix.dimension(),
{
    generator::lemma_compiled_matrix(problem.matrix, compiled.seed);
}

/// Several draws fail only where one of them does: the draws before it succeed,
/// and no word behind them is kept.
pub proof fn failed_draws_exhaust_the_stream(
    seed: Seq<u8>,
    from: nat,
    bound: nat,
    count: nat,
) -> (failure: (nat, nat))
    requires
        0 < bound,
        stream::draws(seed, from, bound, count) is None,
    ensures
        failure.0 < count,
        stream::draws(seed, from, bound, failure.0) matches Some((_, at)) && at == failure.1,
        forall|i: nat|
            failure.1 <= i < stream::STREAM_WORDS ==> bytes::le_value(
                #[trigger] word_bytes(seed, i),
            ) < 0x1_0000_0000_0000_0000nat % bound,
    decreases count,
{
    let fewer = (count - 1) as nat;
    match stream::draws(seed, from, bound, fewer) {
        None => failed_draws_exhaust_the_stream(seed, from, bound, fewer),
        Some((_, at)) => {
            draws_reduce_the_first_kept_word(seed, at, bound);
            (fewer, at)
        },
    }
}

/// A pattern fails only where one of its draws does.
pub proof fn failed_patterns_exhaust_the_stream(
    seed: Seq<u8>,
    from: nat,
    half: nat,
    first: nat,
    steps: nat,
) -> (failure: (nat, nat))
    requires
        sampling::selection(seed, from, half, first, steps) is None,
    ensures
        failure.0 < steps,
        sampling::selection(seed, from, half, first, failure.0) matches Some((_, at)) && at
            == failure.1,
        stream::draw(seed, failure.1, first + failure.0 + 1) is None,
    decreases steps,
{
    let fewer = (steps - 1) as nat;
    match sampling::selection(seed, from, half, first, fewer) {
        None => failed_patterns_exhaust_the_stream(seed, from, half, first, fewer),
        Some((_, at)) => (fewer, at),
    }
}

/// Several patterns fail only where one of them does.
pub proof fn failed_structures_exhaust_the_stream(
    seed: Seq<u8>,
    half: nat,
    width: nat,
    count: nat,
) -> (failure: (nat, nat))
    requires
        width <= 2 * half,
        sampling::patterns(seed, half, width, count) is None,
    ensures
        failure.0 < count,
        sampling::patterns(seed, half, width, failure.0) matches Some((_, at)) && at == failure.1,
        sampling::selection(seed, failure.1, half, (2 * half - width) as nat, width) is None,
    decreases count,
{
    let fewer = (count - 1) as nat;
    match sampling::patterns(seed, half, width, fewer) {
        None => failed_structures_exhaust_the_stream(seed, half, width, fewer),
        Some((_, at)) => (fewer, at),
    }
}

/// The first edge diagonal whose table cannot be drawn.
proof fn lemma_failed_edge(
    family_seed: Seq<u8>,
    edges: Seq<problem::SymmetricDiaEdge>,
    count: nat,
) -> (edge: int)
    requires
        count <= edges.len(),
        generator::compiled_edges(family_seed, edges, count) is None,
    ensures
        0 <= edge < count,
        sampling::negative_table(
            randomness::subseed_bytes(
                family_seed,
                generator::edge_label(edge as nat, edges[edge].positive_offset as nat),
            ),
            pow2(edges[edge].period_bits as nat),
            edges[edge].minimum_weight_mantissa as nat,
            edges[edge].maximum_weight_mantissa as nat,
        ) is None,
    decreases count,
{
    let fewer = (count - 1) as nat;
    match generator::compiled_edges(family_seed, edges, fewer) {
        None => lemma_failed_edge(family_seed, edges, fewer),
        Some(_) => fewer as int,
    }
}

/// A valid matrix recipe fails to compile only where a stream is exhausted while
/// one of its tables is drawn.
pub proof fn matrices_fail_by_exhaustion_alone(recipe: MatrixRecipe, seed: Seq<u8>) -> (edge: int)
    requires
        problem::matrix_error(recipe) is None,
        generator::compiled_matrix(recipe, seed) is None,
    ensures
        match recipe {
            MatrixRecipe::Tridiagonal { period_bits, minimum, maximum, .. } => stream::draws(
                stream_of(seed, "matrix/seeded-symmetric-tridiagonal-v1/off-diagonal-values"@),
                0,
                values_between(minimum as int, maximum as int, false),
                pow2(period_bits as nat),
            ) is None,
            MatrixRecipe::DiaLaplacian { edges, .. } => {
                &&& 0 <= edge < edges.len()
                &&& stream::draws(
                    randomness::subseed_bytes(
                        stream_of(seed, "matrix/seeded-symmetric-dia-laplacian-v1/edge-values"@),
                        generator::edge_label(edge as nat, edges[edge].positive_offset as nat),
                    ),
                    0,
                    values_between(
                        edges[edge].minimum_weight_mantissa as int,
                        edges[edge].maximum_weight_mantissa as int,
                        false,
                    ),
                    pow2(edges[edge].period_bits as nat),
                ) is None
            },
            MatrixRecipe::RowSparse {
                dimension,
                row_pattern_bits,
                half_bandwidth,
                row_width,
                minimum,
                maximum,
                ..
            } => {
                let period = generator::row_patterns(row_pattern_bits, dimension as nat);
                let width = (row_width - 1) as nat;
                let choices = values_between(minimum as int, maximum as int, true);
                ||| sampling::patterns(
                    stream_of(seed, "matrix/seeded-nonsymmetric-row-sparse-v1/structure"@),
                    half_bandwidth as nat,
                    width,
                    period,
                ) is None
                ||| stream::draws(
                    stream_of(
                        seed,
                        "matrix/seeded-nonsymmetric-row-sparse-v1/off-diagonal-values"@,
                    ),
                    0,
                    choices,
                    period * width,
                ) is None
                ||| stream::draws(
                    stream_of(seed, "matrix/seeded-nonsymmetric-row-sparse-v1/diagonal-values"@),
                    0,
                    choices,
                    period,
                ) is None
            },
        },
{
    if let MatrixRecipe::DiaLaplacian { edges, .. } = recipe {
        lemma_failed_edge(
            generator::labelled(seed, generator::DIA_MATRIX_VALUES_LABEL),
            edges,
            edges.len(),
        )
    } else {
        0
    }
}

/// A valid problem compiles where its tables can be drawn, the counts and bounds
/// of its certificate fit the machine, and its right-hand side is one that the
/// matrix can have: only a symmetric family has a manufactured one.
pub proof fn valid_problems_compile(problem: ProblemModel)
    requires
        problem.error() is None,
        generator::compiled_matrix(problem.matrix, problem.randomness.seed()) is Some,
    ensures
        ({
            let seed = problem.randomness.seed();
            let drawn = generator::compiled_matrix(problem.matrix, seed)->0;
            let fits = !(drawn is Tridiagonal) ==> {
                &&& generator::structural_count(drawn) <= usize::MAX
                &&& drawn is RowSparse ==> generator::column_sum_bound(
                    drawn,
                    generator::recipe_half_bandwidth(problem.matrix),
                ) <= u64::MAX
            };
            &&& generator::compiled_problem(problem) is Ok <==> fits && generator::compiled_rhs(
                problem.rhs,
                drawn,
                seed,
            ) is Ok
            &&& !fits ==> generator::compiled_problem(problem) is Err && generator::compiled_problem(
                problem,
            )->Err_0 is IntegerOverflow
            &&& problem.rhs is ManufacturedOnesV1 ==> (generator::compiled_rhs(
                problem.rhs,
                drawn,
                seed,
            ) is Ok <==> !(problem.matrix is RowSparse))
            &&& fits && problem.rhs is ManufacturedOnesV1 && problem.matrix is RowSparse
                ==> generator::compiled_problem(problem) == Err::<GeneratedModel, ProblemError>(
                ProblemError::UnsupportedManufacturedRhs,
            )
            &&& problem.rhs matches RhsSpec::SeededPeriodicDyadicV1 {
                period_bits,
                minimum_mantissa,
                maximum_mantissa,
                ..
            } ==> (generator::compiled_rhs(problem.rhs, drawn, seed) is Ok <==> stream::draws(
                stream_of(seed, "rhs/seeded-periodic-dyadic-v1/values"@),
                0,
                values_between(minimum_mantissa as int, maximum_mantissa as int, false),
                pow2(period_bits as nat),
            ) is Some)
        }),
{
}

} // verus!
