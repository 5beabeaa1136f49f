//! Which chunks and index pages a blob consists of.

use super::blob::{blob_bytes, SpanView};
use super::blob_build::{page_over, page_width, BlobBuildOptions};
use crate::storage::{object_named, ObjectKind, ObjectView};
use vstd::arithmetic::power2::{lemma2_to64, lemma_pow2_unfold, pow2};
use vstd::prelude::*;

verus! {

/// Where the last chunk of some bytes begins.
pub open spec fn last_chunk(length: int, size: int) -> int {
    length - 1 - (length - 1) % size
}

/// The reference to a chunk.
pub open spec fn chunk_reference(content: Seq<u8>, first: int, end: int) -> SpanView {
    SpanView {
        first: first as u64,
        end: end as u64,
        object: object_named(ObjectKind::BlobChunk, content.subrange(first, end)),
    }
}

/// References to the chunks of some bytes: every chunk but the last has the given
/// size, and the last no more.
pub open spec fn chunk_row(content: Seq<u8>, size: int) -> Seq<SpanView>
    recommends
        size > 0,
    decreases content.len(),
{
    let first = last_chunk(content.len() as int, size);
    if content.len() == 0 || !(0 <= first < content.len()) {
        Seq::empty()
    } else {
        chunk_row(content.take(first), size).push(
            chunk_reference(content, first, content.len() as int),
        )
    }
}

/// The reference to the page over some references.
pub open spec fn page_reference(spans: Seq<SpanView>, height: nat) -> SpanView {
    SpanView {
        first: spans[0].first,
        end: spans.last().end,
        object: object_named(
            ObjectKind::Blob,
            blob_bytes(
                page_over(spans, spans[0].first as int, spans.last().end as int, height),
            ),
        ),
    }
}

/// References taken up in order, a page being made whenever there are enough for
/// one: the references to the pages, and what is left over.
pub open spec fn grouped(row: Seq<SpanView>, width: int, height: nat) -> (
    Seq<SpanView>,
    Seq<SpanView>,
)
    decreases row.len(),
{
    if row.len() == 0 {
        (Seq::empty(), Seq::empty())
    } else {
        let (pages, left) = grouped(row.drop_last(), width, height);
        let longer = left.push(row.last());
        if longer.len() == width {
            (pages.push(page_reference(longer, height)), Seq::empty())
        } else {
            (pages, longer)
        }
    }
}

/// References to the pages over all references of a row, the last page with what
/// is left over.
pub open spec fn pages_over(row: Seq<SpanView>, width: int, height: nat) -> Seq<SpanView> {
    let (pages, left) = grouped(row, width, height);
    if left.len() == 0 {
        pages
    } else {
        pages.push(page_reference(left, height))
    }
}

/// At least two references go to every page but the last.
pub proof fn lemma_grouped_sizes(row: Seq<SpanView>, width: int, height: nat)
    requires
        width >= 2,
    ensures
        2 * grouped(row, width, height).0.len() + grouped(row, width, height).1.len() <= row.len(),
        grouped(row, width, height).1.len() < width,
        row.len() > 0 ==> pages_over(row, width, height).len() > 0,
        row.len() > 1 ==> pages_over(row, width, height).len() < row.len(),
    decreases row.len(),
{
    if row.len() > 0 {
        lemma_grouped_sizes(row.drop_last(), width, height);
    }
}

/// One more reference joins what is left over, or completes a page.
pub proof fn lemma_grouped_push(row: Seq<SpanView>, span: SpanView, width: int, height: nat)
    ensures
        ({
            let (pages, left) = grouped(row, width, height);
            let longer = left.push(span);
            grouped(row.push(span), width, height) == if longer.len() == width {
                (pages.push(page_reference(longer, height)), Seq::<SpanView>::empty())
            } else {
                (pages, longer)
            }
        }),
{
    assert(row.push(span).drop_last() =~= row);
}

/// Without a full page everything is left over.
pub proof fn lemma_grouped_none(row: Seq<SpanView>, width: int, height: nat)
    ensures
        grouped(row, width, height).0.len() == 0 ==> grouped(row, width, height).1 == row,
        grouped(row, width, height).0.len() == 0 && grouped(row, width, height).1.len() == 0
            ==> row.len() == 0,
    decreases row.len(),
{
    if row.len() > 0 {
        lemma_grouped_none(row.drop_last(), width, height);
        assert(row.drop_last().push(row.last()) =~= row);
    } else {
        assert(row =~= Seq::<SpanView>::empty());
    }
}

/// Where nothing is left over above a row, there are no pages above it.
pub proof fn lemma_nothing_above(
    base: Seq<SpanView>,
    width: int,
    height: nat,
    low: nat,
    level: nat,
)
    requires
        low <= level,
        level_row(base, width, height, level).len() == 0,
        forall|k: nat| low <= k < level ==> (#[trigger] left_on(base, width, height, k)).len() == 0,
    ensures
        level_row(base, width, height, low).len() == 0,
    decreases level - low,
{
    if low < level {
        let below = (level - 1) as nat;
        assert(left_on(base, width, height, below).len() == 0);
        lemma_grouped_none(level_row(base, width, height, below), width, height + below);
        lemma_nothing_above(base, width, height, low, below);
    }
}

/// The page above all references of a row.
pub open spec fn top_page(row: Seq<SpanView>, width: int, height: nat) -> ObjectView
    decreases row.len(),
    when width >= 2
    via top_page_ends
{
    if row.len() <= 1 {
        row[0].object
    } else {
        top_page(pages_over(row, width, height), width, height + 1)
    }
}

#[via_fn]
proof fn top_page_ends(row: Seq<SpanView>, width: int, height: nat) {
    lemma_grouped_sizes(row, width, height);
}

/// The root of the blob that holds given bytes.
pub open spec fn blob_root(content: Seq<u8>, options: BlobBuildOptions) -> ObjectView {
    if content.len() == 0 {
        object_named(ObjectKind::Blob, blob_bytes(page_over(Seq::empty(), 0, 0, 0)))
    } else {
        let width = page_width(options)->0;
        top_page(
            pages_over(chunk_row(content, options.chunk_bytes as int), width, 0),
            width,
            1,
        )
    }
}

/// The bound on the size of a blob does not change its root.
pub proof fn roots_ignore_the_bound(
    content: Seq<u8>,
    options: BlobBuildOptions,
    maximum_blob_bytes: u64,
)
    ensures
        blob_root(content, BlobBuildOptions { maximum_blob_bytes, ..options }) == blob_root(
            content,
            options,
        ),
{
    let other = BlobBuildOptions { maximum_blob_bytes, ..options };
    assert(page_width(other) == page_width(options));
}

/// Whole chunks go on with one more chunk.
pub proof fn lemma_chunk_row_next(content: Seq<u8>, more: Seq<u8>, size: int)
    requires
        size > 0,
        content.len() % size as nat == 0,
        0 < more.len() <= size,
    ensures
        chunk_row(content + more, size) == chunk_row(content, size).push(
            chunk_reference(content + more, content.len() as int, (content + more).len() as int),
        ),
        more.len() == size ==> (content + more).len() % size as nat == 0,
{
    let whole = content + more;
    let m = content.len() as int;
    let b = more.len() as int;
    vstd::arithmetic::div_mod::lemma_fundamental_div_mod(m, size);
    vstd::arithmetic::div_mod::lemma_fundamental_div_mod_converse(
        m + b - 1,
        size,
        m / size,
        b - 1,
    );
    assert(last_chunk(whole.len() as int, size) == m);
    assert(whole.take(m) =~= content);
    if b == size {
        assert(m + b == size * (m / size + 1)) by (nonlinear_arith)
            requires
                m == size * (m / size),
                b == size,
        ;
        vstd::arithmetic::div_mod::lemma_fundamental_div_mod_converse(
            m + b,
            size,
            m / size + 1,
            0,
        );
    }
}

/// There are no more chunks than bytes.
pub proof fn lemma_chunk_row_short(content: Seq<u8>, size: int)
    ensures
        chunk_row(content, size).len() <= content.len(),
        size > 0 && content.len() > 0 ==> chunk_row(content, size).len() > 0,
    decreases content.len(),
{
    let first = last_chunk(content.len() as int, size);
    if content.len() > 0 && 0 <= first < content.len() {
        lemma_chunk_row_short(content.take(first), size);
    }
    if size > 0 && content.len() > 0 {
        vstd::arithmetic::div_mod::lemma_mod_bound(content.len() - 1, size);
        vstd::arithmetic::div_mod::lemma_fundamental_div_mod(content.len() - 1, size);
        let n = content.len() - 1;
        assert(size * (n / size) >= 0) by (nonlinear_arith)
            requires
                size > 0,
                n / size >= 0,
        ;
    }
}

/// Every chunk but the last has the given size, and the last no more.
pub proof fn chunks_have_a_fixed_size(content: Seq<u8>, size: int, i: int)
    requires
        size > 0,
        content.len() <= u64::MAX,
        0 <= i < chunk_row(content, size).len(),
    ensures
        ({
            let row = chunk_row(content, size);
            &&& row[i].first < row[i].end <= content.len()
            &&& row[i].first == i * size
            &&& if i + 1 < row.len() {
                row[i].end - row[i].first == size
            } else {
                row[i].end == content.len() && row[i].end - row[i].first <= size
            }
            &&& row[i].object == object_named(
                ObjectKind::BlobChunk,
                content.subrange(row[i].first as int, row[i].end as int),
            )
        }),
    decreases content.len(),
{
    let n = content.len() as int;
    let first = last_chunk(n, size);
    let row = chunk_row(content, size);
    if n > 0 {
        vstd::arithmetic::div_mod::lemma_fundamental_div_mod(n - 1, size);
        vstd::arithmetic::div_mod::lemma_mod_bound(n - 1, size);
        let q = (n - 1) / size;
        assert(first == size * q);
        assert(0 <= first) by (nonlinear_arith)
            requires
                first == size * q,
                size > 0,
                q >= 0,
        ;
        let before = chunk_row(content.take(first), size);
        assert(content.take(first).len() == first);
        lemma_chunk_count(content.take(first), size, q);
        if i < before.len() {
            chunks_have_a_fixed_size(content.take(first), size, i);
            assert(row[i] == before[i]);
            let part = content.take(first);
            assert(part.subrange(before[i].first as int, before[i].end as int)
                =~= content.subrange(before[i].first as int, before[i].end as int));
            if i + 1 == before.len() {
                assert(first - i * size == size) by (nonlinear_arith)
                    requires
                        first == size * q,
                        i + 1 == q,
                ;
            }
        } else {
            assert(i * size == first) by (nonlinear_arith)
                requires
                    first == size * q,
                    i == q,
            ;
        }
    }
}

proof fn lemma_chunk_count(content: Seq<u8>, size: int, count: int)
    requires
        size > 0,
        count >= 0,
        content.len() == size * count,
    ensures
        chunk_row(content, size).len() == count,
    decreases content.len(),
{
    let n = content.len() as int;
    if count == 0 {
        assert(n == 0) by (nonlinear_arith)
            requires
                n == size * count,
                count == 0,
        ;
    } else {
        assert(n - 1 == size * (count - 1) + (size - 1)) by (nonlinear_arith)
            requires
                n == size * count,
        ;
        assert(size * (count - 1) >= 0) by (nonlinear_arith)
            requires
                size > 0,
                count >= 1,
        ;
        vstd::arithmetic::div_mod::lemma_fundamental_div_mod_converse(
            n - 1,
            size,
            count - 1,
            size - 1,
        );
        let first = last_chunk(n, size);
        assert(first == size * (count - 1));
        lemma_chunk_count(content.take(first), size, count - 1);
    }
}

/// The references of a level of full pages above a row.
pub open spec fn level_row(base: Seq<SpanView>, width: int, height: nat, level: nat) -> Seq<
    SpanView,
>
    decreases level,
{
    if level == 0 {
        base
    } else {
        grouped(
            level_row(base, width, height, (level - 1) as nat),
            width,
            (height + level - 1) as nat,
        ).0
    }
}

/// What is left over on a level.
pub open spec fn left_on(base: Seq<SpanView>, width: int, height: nat, level: nat) -> Seq<
    SpanView,
> {
    grouped(level_row(base, width, height, level), width, height + level).1
}

/// Levels that agree once agree from there on.
pub proof fn lemma_levels_agree(
    a: Seq<SpanView>,
    b: Seq<SpanView>,
    width: int,
    height: nat,
    low: nat,
    level: nat,
)
    requires
        low <= level,
        level_row(a, width, height, low) == level_row(b, width, height, low),
    ensures
        level_row(a, width, height, level) == level_row(b, width, height, level),
        left_on(a, width, height, level) == left_on(b, width, height, level),
    decreases level,
{
    if low < level {
        lemma_levels_agree(a, b, width, height, low, (level - 1) as nat);
    }
}

/// The levels above a row are those above its full pages.
pub proof fn lemma_level_up(base: Seq<SpanView>, width: int, height: nat, level: nat)
    ensures
        level_row(base, width, height, level + 1) == level_row(
            grouped(base, width, height).0,
            width,
            height + 1,
            level,
        ),
        left_on(base, width, height, level + 1) == left_on(
            grouped(base, width, height).0,
            width,
            height + 1,
            level,
        ),
    decreases level,
{
    if level > 0 {
        lemma_level_up(base, width, height, (level - 1) as nat);
    } else {
        assert(level_row(base, width, height, 0) == base);
    }
}

/// There are no pages above nothing.
pub proof fn lemma_level_empty(
    base: Seq<SpanView>,
    width: int,
    height: nat,
    low: nat,
    level: nat,
)
    requires
        low <= level,
        level_row(base, width, height, low).len() == 0,
    ensures
        level_row(base, width, height, level).len() == 0,
    decreases level,
{
    if low < level {
        lemma_level_empty(base, width, height, low, (level - 1) as nat);
    }
}

proof fn lemma_level_halves(base: Seq<SpanView>, width: int, height: nat, level: nat)
    requires
        width >= 2,
    ensures
        level_row(base, width, height, level).len() * pow2(level) <= base.len(),
    decreases level,
{
    let n = level_row(base, width, height, level).len();
    if level == 0 {
        lemma2_to64();
        assert(n * pow2(level) == n) by (nonlinear_arith)
            requires
                pow2(level) == 1,
        ;
    } else {
        let below = (level - 1) as nat;
        lemma_level_halves(base, width, height, below);
        lemma_grouped_sizes(
            level_row(base, width, height, below),
            width,
            (height + below) as nat,
        );
        lemma_pow2_unfold(level);
        let m = level_row(base, width, height, below).len();
        let p = pow2(below);
        assert(n * pow2(level) <= m * p) by (nonlinear_arith)
            requires
                2 * n <= m,
                pow2(level) == 2 * p,
        ;
    }
}

/// An index over bytes that can be counted has few levels.
pub proof fn lemma_few_levels(base: Seq<SpanView>, width: int, height: nat, level: nat)
    requires
        width >= 2,
        base.len() <= u64::MAX,
        level_row(base, width, height, level).len() > 0,
    ensures
        level < 64,
{
    if level >= 64 {
        if level_row(base, width, height, 64).len() == 0 {
            lemma_level_empty(base, width, height, 64, level);
        }
        lemma_level_halves(base, width, height, 64);
        lemma2_to64();
        let n = level_row(base, width, height, 64).len();
        let p = pow2(64);
        assert(n * p >= p) by (nonlinear_arith)
            requires
                n >= 1,
                p >= 0,
        ;
    }
}

} // verus!
