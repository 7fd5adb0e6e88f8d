//! What holds of sequences of requests made to one arena.
use vstd::prelude::*;

use crate::align::{
    align_down, align_up, is_power_of_two, lemma_align_down, lemma_align_up,
    lemma_difference_of_multiples, lemma_mod_of_multiple, lemma_multiple_below, lemma_power_of_two_divides,
    lemma_rem_of_multiple, lemma_sum_of_multiples,
};
use crate::bump_down::{
    down_checked_cursor, down_checked_result, down_fast_candidate, down_fast_cursor,
    down_fast_result, BumpDown,
};
use crate::bump_up::{
    up_checked_cursor, up_checked_result, up_fast_cursor, up_fast_need, up_fast_offset,
    up_fast_result, BumpUp,
};
use crate::layout::Layout;

verus! {

/// Every layout of the sequence is valid.
pub open spec fn all_valid(ls: Seq<Layout>) -> bool {
    forall|i: int| 0 <= i < ls.len() ==> (#[trigger] ls[i]).is_valid()
}

/// The room that the fast paths may take for a layout: its size padded to a
/// multiple of `min_align`, and, for an alignment above `min_align`, the most
/// that rounding to it can skip.
pub open spec fn padded_size(l: Layout, min_align: int) -> int {
    align_up(l.size() as int, min_align) + if l.align() > min_align {
        l.align() - min_align
    } else {
        0
    }
}

/// The padded sizes of a sequence of layouts, added up.
pub open spec fn total_padded_size(ls: Seq<Layout>, min_align: int) -> int
    decreases ls.len(),
{
    if ls.len() == 0 {
        0
    } else {
        padded_size(ls[0], min_align) + total_padded_size(ls.drop_first(), min_align)
    }
}

/// The most room that the checked paths may take for a layout: its size,
/// and up to one byte less than its alignment skipped to reach it.
pub open spec fn checked_padded_size(l: Layout) -> int {
    l.size() + l.align() - 1
}

/// The checked padded sizes of a sequence of layouts, added up.
pub open spec fn total_checked_padded_size(ls: Seq<Layout>) -> int
    decreases ls.len(),
{
    if ls.len() == 0 {
        0
    } else {
        checked_padded_size(ls[0]) + total_checked_padded_size(ls.drop_first())
    }
}

proof fn lemma_total_checked_padded_size_nonnegative(ls: Seq<Layout>)
    requires
        all_valid(ls),
    ensures
        total_checked_padded_size(ls) >= 0,
    decreases ls.len(),
{
    if ls.len() > 0 {
        lemma_rest_valid(ls);
        lemma_total_checked_padded_size_nonnegative(ls.drop_first());
    }
}

/// What the fast path of an upward arena returns for each request of `ls`,
/// made in order from `cursor`.
pub open spec fn up_fast_run(cursor: int, end: int, ls: Seq<Layout>, min_align: int) -> Seq<Option<int>>
    decreases ls.len(),
{
    if ls.len() == 0 {
        Seq::empty()
    } else {
        seq![up_fast_result(cursor, end, ls[0], min_align)] + up_fast_run(
            up_fast_cursor(cursor, end, ls[0], min_align),
            end,
            ls.drop_first(),
            min_align,
        )
    }
}

/// What the checked path of an upward arena returns for each request of
/// `ls`, made in order from `cursor`.
pub open spec fn up_checked_run(cursor: int, end: int, ls: Seq<Layout>) -> Seq<Option<int>>
    decreases ls.len(),
{
    if ls.len() == 0 {
        Seq::empty()
    } else {
        seq![up_checked_result(cursor, end, ls[0])] + up_checked_run(
            up_checked_cursor(cursor, end, ls[0]),
            end,
            ls.drop_first(),
        )
    }
}

proof fn lemma_total_padded_size_nonnegative(ls: Seq<Layout>, m: int)
    requires
        m > 0,
    ensures
        total_padded_size(ls, m) >= 0,
    decreases ls.len(),
{
    if ls.len() > 0 {
        lemma_align_up(ls[0].size() as int, m);
        lemma_total_padded_size_nonnegative(ls.drop_first(), m);
    }
}

/// One fast-path request from an upward cursor that is a multiple of `m`.
proof fn lemma_up_fast_step(cursor: int, l: Layout, m: usize)
    requires
        is_power_of_two(m),
        cursor >= 0,
        cursor % m as int == 0,
        l.is_valid(),
    ensures
        up_fast_need(cursor, l, m as int) <= padded_size(l, m as int),
        (cursor + up_fast_offset(cursor, l.align() as int, m as int)) % l.align() as int == 0,
        (cursor + up_fast_need(cursor, l, m as int)) % m as int == 0,
        up_fast_offset(cursor, l.align() as int, m as int) >= 0,
        up_fast_need(cursor, l, m as int) >= up_fast_offset(cursor, l.align() as int, m as int)
            + l.size(),
{
    let a = l.align() as int;
    let mi = m as int;
    let s = l.size() as int;
    lemma_align_up(s, mi);
    let result = cursor + up_fast_offset(cursor, a, mi);
    if l.align() > m {
        lemma_power_of_two_divides(m, l.align());
        lemma_rem_of_multiple(cursor, mi, a);
        lemma_align_up(cursor, a);
        lemma_mod_of_multiple(result, a, mi);
    } else {
        lemma_power_of_two_divides(l.align(), m);
        lemma_mod_of_multiple(cursor, mi, a);
    }
    lemma_sum_of_multiples(result, align_up(s, mi), mi);
}

/// The fast path of an upward arena, from a cursor that is a multiple of `m`,
/// serves every request of a sequence whose padded sizes add up to at most
/// the room left, each at an aligned address inside `[cursor, end)`.
proof fn lemma_up_fast_run_serves(cursor: int, end: int, ls: Seq<Layout>, m: usize)
    requires
        is_power_of_two(m),
        0 <= cursor <= end,
        cursor % m as int == 0,
        all_valid(ls),
        total_padded_size(ls, m as int) <= end - cursor,
    ensures
        up_fast_run(cursor, end, ls, m as int).len() == ls.len(),
        forall|i: int|
            0 <= i < ls.len() ==> {
                &&& #[trigger] up_fast_run(cursor, end, ls, m as int)[i] matches Some(a)
                &&& a % ls[i].align() as int == 0
                &&& cursor <= a
                &&& a + ls[i].size() <= end
            },
    decreases ls.len(),
{
    if ls.len() > 0 {
        let mi = m as int;
        let l = ls[0];
        let rest = ls.drop_first();
        lemma_up_fast_step(cursor, l, m);
        lemma_total_padded_size_nonnegative(rest, mi);
        let next = up_fast_cursor(cursor, end, l, mi);
        lemma_rest_valid(ls);
        lemma_up_fast_run_serves(next, end, rest, m);
        let run = up_fast_run(cursor, end, ls, mi);
        let tail = up_fast_run(next, end, rest, mi);
        assert forall|i: int| 0 <= i < ls.len() implies {
            &&& #[trigger] run[i] matches Some(a)
            &&& a % ls[i].align() as int == 0
            &&& cursor <= a
            &&& a + ls[i].size() <= end
        } by {
            if i > 0 {
                assert(run[i] == tail[i - 1]);
                assert(ls[i] == rest[i - 1]);
            }
        }
    }
}

/// Capacity and alignment: from an empty upward arena, the fast path serves
/// every request of a sequence whose padded sizes add up to at most the
/// arena's capacity, each at an address that is a multiple of the request's
/// alignment, with the whole block inside the region.
pub proof fn law_up_fast_serves_all<const MIN_ALIGN: usize>(arena: BumpUp<MIN_ALIGN>, ls: Seq<Layout>)
    requires
        arena.wf(),
        arena.cursor() == arena.start(),
        all_valid(ls),
        total_padded_size(ls, MIN_ALIGN as int) <= arena.end() - arena.start(),
    ensures
        forall|i: int|
            0 <= i < ls.len() ==> {
                &&& #[trigger] up_fast_run(
                    arena.cursor() as int,
                    arena.end() as int,
                    ls,
                    MIN_ALIGN as int,
                )[i] matches Some(a)
                &&& a % ls[i].align() as int == 0
                &&& arena.start() <= a
                &&& a + ls[i].size() <= arena.end()
            },
{
    lemma_up_fast_run_serves(arena.cursor() as int, arena.end() as int, ls, MIN_ALIGN);
}

/// The checked path of an upward arena serves every request of a sequence
/// whose checked padded sizes add up to at most the room left, each at an
/// aligned address inside `[cursor, end)`.
proof fn lemma_up_checked_run_serves(cursor: int, end: int, ls: Seq<Layout>)
    requires
        0 <= cursor <= end,
        all_valid(ls),
        total_checked_padded_size(ls) <= end - cursor,
    ensures
        up_checked_run(cursor, end, ls).len() == ls.len(),
        forall|i: int|
            0 <= i < ls.len() ==> {
                &&& #[trigger] up_checked_run(cursor, end, ls)[i] matches Some(a)
                &&& a % ls[i].align() as int == 0
                &&& cursor <= a
                &&& a + ls[i].size() <= end
            },
    decreases ls.len(),
{
    if ls.len() > 0 {
        let l = ls[0];
        let rest = ls.drop_first();
        lemma_rest_valid(ls);
        lemma_total_checked_padded_size_nonnegative(rest);
        lemma_align_up(cursor, l.align() as int);
        let next = up_checked_cursor(cursor, end, l);
        lemma_up_checked_run_serves(next, end, rest);
        let run = up_checked_run(cursor, end, ls);
        let tail = up_checked_run(next, end, rest);
        assert forall|i: int| 0 <= i < ls.len() implies {
            &&& #[trigger] run[i] matches Some(a)
            &&& a % ls[i].align() as int == 0
            &&& cursor <= a
            &&& a + ls[i].size() <= end
        } by {
            if i > 0 {
                assert(run[i] == tail[i - 1]);
                assert(ls[i] == rest[i - 1]);
            }
        }
    }
}

/// Capacity and alignment: from an empty upward arena, the checked path
/// serves every request of a sequence whose checked padded sizes add up to
/// at most the arena's capacity, each at an address that is a multiple of the
/// request's alignment, with the whole block inside the region.
pub proof fn law_up_checked_serves_all<const MIN_ALIGN: usize>(
    arena: BumpUp<MIN_ALIGN>,
    ls: Seq<Layout>,
)
    requires
        arena.wf(),
        arena.cursor() == arena.start(),
        all_valid(ls),
        total_checked_padded_size(ls) <= arena.end() - arena.start(),
    ensures
        forall|i: int|
            0 <= i < ls.len() ==> {
                &&& #[trigger] up_checked_run(arena.cursor() as int, arena.end() as int, ls)[i] matches Some(a)
                &&& a % ls[i].align() as int == 0
                &&& arena.start() <= a
                &&& a + ls[i].size() <= arena.end()
            },
{
    lemma_up_checked_run_serves(arena.cursor() as int, arena.end() as int, ls);
}

/// The results of a sequence of upward fast-path requests lie at or above
/// the cursor they start from, and each block ends at or before every later
/// block begins.
proof fn lemma_up_fast_run_ordered(cursor: int, end: int, ls: Seq<Layout>, m: int)
    requires
        m > 0,
        cursor >= 0,
        all_valid(ls),
    ensures
        up_fast_run(cursor, end, ls, m).len() == ls.len(),
        forall|i: int|
            0 <= i < ls.len() ==> (#[trigger] up_fast_run(cursor, end, ls, m)[i] matches Some(a)
                ==> cursor <= a),
        forall|i: int, j: int|
            0 <= i < j < ls.len() ==> (#[trigger] up_fast_run(cursor, end, ls, m)[i] matches Some(a)
                ==> (#[trigger] up_fast_run(cursor, end, ls, m)[j] matches Some(b)
                ==> a + ls[i].size() <= b)),
    decreases ls.len(),
{
    if ls.len() > 0 {
        let l = ls[0];
        let rest = ls.drop_first();
        lemma_align_up(l.size() as int, m);
        if l.align() as int > m {
            lemma_align_up(cursor, l.align() as int);
        }
        let next = up_fast_cursor(cursor, end, l, m);
        lemma_rest_valid(ls);
        lemma_up_fast_run_ordered(next, end, rest, m);
        let run = up_fast_run(cursor, end, ls, m);
        let tail = up_fast_run(next, end, rest, m);
        assert forall|i: int| 0 <= i < ls.len() implies (#[trigger] run[i] matches Some(a) ==> cursor
            <= a) by {
            if i > 0 {
                assert(run[i] == tail[i - 1]);
            }
        }
        assert forall|i: int, j: int| 0 <= i < j < ls.len() implies (#[trigger] run[i] matches Some(
            a,
        ) ==> (#[trigger] run[j] matches Some(b) ==> a + ls[i].size() <= b)) by {
            assert(run[j] == tail[j - 1]);
            if i > 0 {
                assert(run[i] == tail[i - 1]);
                assert(ls[i] == rest[i - 1]);
            }
        }
    }
}

/// The results of a sequence of upward checked-path requests lie at or
/// above the cursor they start from, and each block ends at or before every
/// later block begins.
proof fn lemma_up_checked_run_ordered(cursor: int, end: int, ls: Seq<Layout>)
    requires
        cursor >= 0,
        all_valid(ls),
    ensures
        up_checked_run(cursor, end, ls).len() == ls.len(),
        forall|i: int|
            0 <= i < ls.len() ==> (#[trigger] up_checked_run(cursor, end, ls)[i] matches Some(a)
                ==> cursor <= a),
        forall|i: int, j: int|
            0 <= i < j < ls.len() ==> (#[trigger] up_checked_run(cursor, end, ls)[i] matches Some(a)
                ==> (#[trigger] up_checked_run(cursor, end, ls)[j] matches Some(b)
                ==> a + ls[i].size() <= b)),
    decreases ls.len(),
{
    if ls.len() > 0 {
        let l = ls[0];
        let rest = ls.drop_first();
        lemma_align_up(cursor, l.align() as int);
        let next = up_checked_cursor(cursor, end, l);
        lemma_rest_valid(ls);
        lemma_up_checked_run_ordered(next, end, rest);
        let run = up_checked_run(cursor, end, ls);
        let tail = up_checked_run(next, end, rest);
        assert forall|i: int| 0 <= i < ls.len() implies (#[trigger] run[i] matches Some(a) ==> cursor
            <= a) by {
            if i > 0 {
                assert(run[i] == tail[i - 1]);
            }
        }
        assert forall|i: int, j: int| 0 <= i < j < ls.len() implies (#[trigger] run[i] matches Some(
            a,
        ) ==> (#[trigger] run[j] matches Some(b) ==> a + ls[i].size() <= b)) by {
            assert(run[j] == tail[j - 1]);
            if i > 0 {
                assert(run[i] == tail[i - 1]);
                assert(ls[i] == rest[i - 1]);
            }
        }
    }
}

/// Disjointness: the blocks that an upward arena hands out, by either path,
/// follow one another without overlap; each ends at or before every later
/// one begins.
pub proof fn law_up_blocks_disjoint<const MIN_ALIGN: usize>(arena: BumpUp<MIN_ALIGN>, ls: Seq<Layout>)
    requires
        arena.wf(),
        all_valid(ls),
    ensures
        forall|i: int, j: int|
            0 <= i < j < ls.len() ==> (#[trigger] up_fast_run(
                arena.cursor() as int,
                arena.end() as int,
                ls,
                MIN_ALIGN as int,
            )[i] matches Some(a) ==> (#[trigger] up_fast_run(
                arena.cursor() as int,
                arena.end() as int,
                ls,
                MIN_ALIGN as int,
            )[j] matches Some(b) ==> a + ls[i].size() <= b)),
        forall|i: int, j: int|
            0 <= i < j < ls.len() ==> (#[trigger] up_checked_run(
                arena.cursor() as int,
                arena.end() as int,
                ls,
            )[i] matches Some(a) ==> (#[trigger] up_checked_run(
                arena.cursor() as int,
                arena.end() as int,
                ls,
            )[j] matches Some(b) ==> a + ls[i].size() <= b)),
{
    lemma_up_fast_run_ordered(arena.cursor() as int, arena.end() as int, ls, MIN_ALIGN as int);
    lemma_up_checked_run_ordered(arena.cursor() as int, arena.end() as int, ls);
}

/// Restart: an upward arena that `clear` has emptied answers a sequence of
/// requests, by either path, exactly as the arena answered it when it was
/// first empty, and ends with the same cursor.
pub proof fn law_up_clear_replays<const MIN_ALIGN: usize>(
    fresh: BumpUp<MIN_ALIGN>,
    cleared: BumpUp<MIN_ALIGN>,
    ls: Seq<Layout>,
)
    requires
        fresh.wf(),
        fresh.cursor() == fresh.start(),
        cleared.wf(),
        cleared.start() == fresh.start(),
        cleared.end() == fresh.end(),
        cleared.cursor() == cleared.start(),
    ensures
        up_fast_run(cleared.cursor() as int, cleared.end() as int, ls, MIN_ALIGN as int)
            == up_fast_run(fresh.cursor() as int, fresh.end() as int, ls, MIN_ALIGN as int),
        up_checked_run(cleared.cursor() as int, cleared.end() as int, ls) == up_checked_run(
            fresh.cursor() as int,
            fresh.end() as int,
            ls,
        ),
        up_fast_run_cursor(cleared.cursor() as int, cleared.end() as int, ls, MIN_ALIGN as int)
            == up_fast_run_cursor(fresh.cursor() as int, fresh.end() as int, ls, MIN_ALIGN as int),
        up_checked_run_cursor(cleared.cursor() as int, cleared.end() as int, ls)
            == up_checked_run_cursor(fresh.cursor() as int, fresh.end() as int, ls),
{
}

/// Multiples of `m` in every size, and alignments of at most `m`.
pub open spec fn sizes_and_aligns_within(ls: Seq<Layout>, m: int) -> bool {
    forall|i: int|
        0 <= i < ls.len() ==> (#[trigger] ls[i]).size() as int % m == 0 && ls[i].align() <= m
}

proof fn lemma_up_paths_agree(cursor: int, end: int, ls: Seq<Layout>, m: usize)
    requires
        is_power_of_two(m),
        cursor >= 0,
        cursor % m as int == 0,
        all_valid(ls),
        sizes_and_aligns_within(ls, m as int),
    ensures
        up_fast_run(cursor, end, ls, m as int) == up_checked_run(cursor, end, ls),
        up_fast_run_cursor(cursor, end, ls, m as int) == up_checked_run_cursor(cursor, end, ls),
    decreases ls.len(),
{
    if ls.len() > 0 {
        let mi = m as int;
        let l = ls[0];
        let rest = ls.drop_first();
        assert(l.is_valid() && l.size() as int % mi == 0 && l.align() <= m);
        lemma_align_up(l.size() as int, mi);
        lemma_power_of_two_divides(l.align(), m);
        lemma_mod_of_multiple(cursor, mi, l.align() as int);
        lemma_align_up(cursor, l.align() as int);
        let next = up_fast_cursor(cursor, end, l, mi);
        assert(next == up_checked_cursor(cursor, end, l));
        lemma_sum_of_multiples(cursor, l.size() as int, mi);
        assert(all_valid(rest) && sizes_and_aligns_within(rest, mi)) by {
            assert forall|i: int| 0 <= i < rest.len() implies (#[trigger] rest[i]).is_valid()
                && rest[i].size() as int % mi == 0 && rest[i].align() <= m by {
                assert(rest[i] == ls[i + 1]);
            }
        }
        lemma_up_paths_agree(next, end, rest, m);
    }
}

/// Equivalence: from an empty upward arena, for requests whose sizes are
/// multiples of `MIN_ALIGN` and whose alignments are at most `MIN_ALIGN`, the
/// fast path and the checked path return the same addresses and leave the
/// same cursor.
pub proof fn law_up_paths_agree<const MIN_ALIGN: usize>(arena: BumpUp<MIN_ALIGN>, ls: Seq<Layout>)
    requires
        arena.wf(),
        arena.cursor() == arena.start(),
        all_valid(ls),
        sizes_and_aligns_within(ls, MIN_ALIGN as int),
    ensures
        up_fast_run(arena.cursor() as int, arena.end() as int, ls, MIN_ALIGN as int)
            == up_checked_run(arena.cursor() as int, arena.end() as int, ls),
        up_fast_run_cursor(arena.cursor() as int, arena.end() as int, ls, MIN_ALIGN as int)
            == up_checked_run_cursor(arena.cursor() as int, arena.end() as int, ls),
{
    lemma_up_paths_agree(arena.cursor() as int, arena.end() as int, ls, MIN_ALIGN);
}

/// What the fast path of a downward arena returns for each request of `ls`,
/// made in order from `cursor`.
pub open spec fn down_fast_run(cursor: int, start: int, ls: Seq<Layout>, min_align: int) -> Seq<
    Option<int>,
>
    decreases ls.len(),
{
    if ls.len() == 0 {
        Seq::empty()
    } else {
        seq![down_fast_result(cursor, start, ls[0], min_align)] + down_fast_run(
            down_fast_cursor(cursor, start, ls[0], min_align),
            start,
            ls.drop_first(),
            min_align,
        )
    }
}

/// What the checked path of a downward arena returns for each request of
/// `ls`, made in order from `cursor`.
pub open spec fn down_checked_run(cursor: int, start: int, ls: Seq<Layout>) -> Seq<Option<int>>
    decreases ls.len(),
{
    if ls.len() == 0 {
        Seq::empty()
    } else {
        seq![down_checked_result(cursor, start, ls[0])] + down_checked_run(
            down_checked_cursor(cursor, start, ls[0]),
            start,
            ls.drop_first(),
        )
    }
}

/// The cursor of an upward arena after the fast-path requests of `ls`, made
/// in order from `cursor`.
pub open spec fn up_fast_run_cursor(cursor: int, end: int, ls: Seq<Layout>, min_align: int) -> int
    decreases ls.len(),
{
    if ls.len() == 0 {
        cursor
    } else {
        up_fast_run_cursor(up_fast_cursor(cursor, end, ls[0], min_align), end, ls.drop_first(), min_align)
    }
}

/// The cursor of an upward arena after the checked-path requests of `ls`,
/// made in order from `cursor`.
pub open spec fn up_checked_run_cursor(cursor: int, end: int, ls: Seq<Layout>) -> int
    decreases ls.len(),
{
    if ls.len() == 0 {
        cursor
    } else {
        up_checked_run_cursor(up_checked_cursor(cursor, end, ls[0]), end, ls.drop_first())
    }
}

/// The cursor of a downward arena after the fast-path requests of `ls`, made
/// in order from `cursor`.
pub open spec fn down_fast_run_cursor(cursor: int, start: int, ls: Seq<Layout>, min_align: int) -> int
    decreases ls.len(),
{
    if ls.len() == 0 {
        cursor
    } else {
        down_fast_run_cursor(
            down_fast_cursor(cursor, start, ls[0], min_align),
            start,
            ls.drop_first(),
            min_align,
        )
    }
}

/// The cursor of a downward arena after the checked-path requests of `ls`,
/// made in order from `cursor`.
pub open spec fn down_checked_run_cursor(cursor: int, start: int, ls: Seq<Layout>) -> int
    decreases ls.len(),
{
    if ls.len() == 0 {
        cursor
    } else {
        down_checked_run_cursor(down_checked_cursor(cursor, start, ls[0]), start, ls.drop_first())
    }
}

proof fn lemma_rest_valid(ls: Seq<Layout>)
    requires
        ls.len() > 0,
        all_valid(ls),
    ensures
        all_valid(ls.drop_first()),
        ls[0].is_valid(),
{
    let rest = ls.drop_first();
    assert forall|i: int| 0 <= i < rest.len() implies (#[trigger] rest[i]).is_valid() by {
        assert(rest[i] == ls[i + 1]);
    }
}

/// Padded sizes are multiples of `m`, and so is their total.
proof fn lemma_total_padded_size_multiple(ls: Seq<Layout>, m: usize)
    requires
        is_power_of_two(m),
        all_valid(ls),
    ensures
        total_padded_size(ls, m as int) % m as int == 0,
        total_padded_size(ls, m as int) >= 0,
    decreases ls.len(),
{
    let mi = m as int;
    if ls.len() == 0 {
        vstd::arithmetic::div_mod::lemma_small_mod(0, m as nat);
    } else {
        let l = ls[0];
        lemma_rest_valid(ls);
        lemma_total_padded_size_multiple(ls.drop_first(), m);
        lemma_align_up(l.size() as int, mi);
        if l.align() > m {
            lemma_power_of_two_divides(m, l.align());
            lemma_power_of_two_divides(m, m);
            lemma_difference_of_multiples(l.align() as int, mi, mi);
            lemma_sum_of_multiples(align_up(l.size() as int, mi), l.align() - mi, mi);
        }
        lemma_sum_of_multiples(padded_size(l, mi), total_padded_size(ls.drop_first(), mi), mi);
    }
}

/// The fast path of a downward arena serves every request of a sequence
/// whose padded sizes add up to at most the room between `start`, a multiple
/// of `m`, and the cursor, each at an aligned address inside
/// `[start, cursor)`.
proof fn lemma_down_fast_run_serves(cursor: int, start: int, ls: Seq<Layout>, m: usize)
    requires
        is_power_of_two(m),
        0 <= start <= cursor,
        start % m as int == 0,
        all_valid(ls),
        total_padded_size(ls, m as int) <= cursor - start,
    ensures
        down_fast_run(cursor, start, ls, m as int).len() == ls.len(),
        forall|i: int|
            0 <= i < ls.len() ==> {
                &&& #[trigger] down_fast_run(cursor, start, ls, m as int)[i] matches Some(a)
                &&& a % ls[i].align() as int == 0
                &&& start <= a
                &&& a + ls[i].size() <= cursor
            },
    decreases ls.len(),
{
    if ls.len() > 0 {
        let mi = m as int;
        let l = ls[0];
        let rest = ls.drop_first();
        lemma_rest_valid(ls);
        let a = l.align() as int;
        let rounded = align_down(cursor, mi);
        lemma_align_down(cursor, mi);
        lemma_total_padded_size_multiple(ls, m);
        lemma_sum_of_multiples(start, total_padded_size(ls, mi), mi);
        lemma_multiple_below(start + total_padded_size(ls, mi), cursor, mi);
        let padded = align_up(l.size() as int, mi);
        lemma_align_up(l.size() as int, mi);
        lemma_total_padded_size_nonnegative(rest, mi);
        let c = rounded - padded;
        lemma_difference_of_multiples(rounded, padded, mi);
        let cand = down_fast_candidate(cursor, l, mi);
        if l.align() > m {
            lemma_power_of_two_divides(m, l.align());
            lemma_rem_of_multiple(c, mi, a);
            lemma_align_down(c, a);
            lemma_mod_of_multiple(cand, a, mi);
        } else {
            lemma_power_of_two_divides(l.align(), m);
            lemma_mod_of_multiple(c, mi, a);
        }
        lemma_down_fast_run_serves(cand, start, rest, m);
        let run = down_fast_run(cursor, start, ls, mi);
        let tail = down_fast_run(cand, start, rest, mi);
        assert forall|i: int| 0 <= i < ls.len() implies {
            &&& #[trigger] run[i] matches Some(r)
            &&& r % ls[i].align() as int == 0
            &&& start <= r
            &&& r + ls[i].size() <= cursor
        } by {
            if i > 0 {
                assert(run[i] == tail[i - 1]);
                assert(ls[i] == rest[i - 1]);
            }
        }
    }
}

/// Capacity and alignment: from an empty downward arena, the fast path serves every request of a sequence
/// whose padded sizes add up to at most the arena's capacity, each at an
/// address that is a multiple of the request's alignment, with the whole
/// block inside the region.
pub proof fn law_down_fast_serves_all<const MIN_ALIGN: usize>(
    arena: BumpDown<MIN_ALIGN>,
    ls: Seq<Layout>,
)
    requires
        arena.wf(),
        arena.cursor() == arena.end(),
        all_valid(ls),
        total_padded_size(ls, MIN_ALIGN as int) <= arena.end() - arena.start(),
    ensures
        forall|i: int|
            0 <= i < ls.len() ==> {
                &&& #[trigger] down_fast_run(
                    arena.cursor() as int,
                    arena.start() as int,
                    ls,
                    MIN_ALIGN as int,
                )[i] matches Some(a)
                &&& a % ls[i].align() as int == 0
                &&& arena.start() <= a
                &&& a + ls[i].size() <= arena.end()
            },
{
    lemma_down_fast_run_serves(arena.cursor() as int, arena.start() as int, ls, MIN_ALIGN);
}

/// The checked path of a downward arena serves every request of a sequence
/// whose checked padded sizes add up to at most the room left, each at an
/// aligned address inside `[start, cursor)`.
proof fn lemma_down_checked_run_serves(cursor: int, start: int, ls: Seq<Layout>)
    requires
        0 <= start <= cursor,
        all_valid(ls),
        total_checked_padded_size(ls) <= cursor - start,
    ensures
        down_checked_run(cursor, start, ls).len() == ls.len(),
        forall|i: int|
            0 <= i < ls.len() ==> {
                &&& #[trigger] down_checked_run(cursor, start, ls)[i] matches Some(a)
                &&& a % ls[i].align() as int == 0
                &&& start <= a
                &&& a + ls[i].size() <= cursor
            },
    decreases ls.len(),
{
    if ls.len() > 0 {
        let l = ls[0];
        let rest = ls.drop_first();
        lemma_rest_valid(ls);
        lemma_total_checked_padded_size_nonnegative(rest);
        lemma_align_down(cursor - l.size(), l.align() as int);
        let next = down_checked_cursor(cursor, start, l);
        lemma_down_checked_run_serves(next, start, rest);
        let run = down_checked_run(cursor, start, ls);
        let tail = down_checked_run(next, start, rest);
        assert forall|i: int| 0 <= i < ls.len() implies {
            &&& #[trigger] run[i] matches Some(a)
            &&& a % ls[i].align() as int == 0
            &&& start <= a
            &&& a + ls[i].size() <= cursor
        } by {
            if i > 0 {
                assert(run[i] == tail[i - 1]);
                assert(ls[i] == rest[i - 1]);
            }
        }
    }
}

/// Capacity and alignment: from an empty downward arena, the checked path
/// serves every request of a sequence whose checked padded sizes add up to
/// at most the arena's capacity, each at an address that is a multiple of the
/// request's alignment, with the whole block inside the region.
pub proof fn law_down_checked_serves_all<const MIN_ALIGN: usize>(
    arena: BumpDown<MIN_ALIGN>,
    ls: Seq<Layout>,
)
    requires
        arena.wf(),
        arena.cursor() == arena.end(),
        all_valid(ls),
        total_checked_padded_size(ls) <= arena.end() - arena.start(),
    ensures
        forall|i: int|
            0 <= i < ls.len() ==> {
                &&& #[trigger] down_checked_run(arena.cursor() as int, arena.start() as int, ls)[i] matches Some(a)
                &&& a % ls[i].align() as int == 0
                &&& arena.start() <= a
                &&& a + ls[i].size() <= arena.end()
            },
{
    lemma_down_checked_run_serves(arena.cursor() as int, arena.start() as int, ls);
}

/// The results of a sequence of downward fast-path requests lie below the
/// cursor they start from, and each block begins at or after every later
/// block ends.
proof fn lemma_down_fast_run_ordered(cursor: int, start: int, ls: Seq<Layout>, m: int)
    requires
        m > 0,
        all_valid(ls),
    ensures
        down_fast_run(cursor, start, ls, m).len() == ls.len(),
        forall|i: int|
            0 <= i < ls.len() ==> (#[trigger] down_fast_run(cursor, start, ls, m)[i] matches Some(
                a,
            ) ==> a + ls[i].size() <= cursor),
        forall|i: int, j: int|
            0 <= i < j < ls.len() ==> (#[trigger] down_fast_run(cursor, start, ls, m)[i] matches Some(
                a,
            ) ==> (#[trigger] down_fast_run(cursor, start, ls, m)[j] matches Some(b) ==> b
                + ls[j].size() <= a)),
    decreases ls.len(),
{
    if ls.len() > 0 {
        let l = ls[0];
        let rest = ls.drop_first();
        lemma_rest_valid(ls);
        lemma_align_up(l.size() as int, m);
        let c = cursor - align_up(l.size() as int, m);
        if c >= 0 && l.align() as int > m {
            lemma_align_down(c, l.align() as int);
        }
        let next = down_fast_cursor(cursor, start, l, m);
        lemma_down_fast_run_ordered(next, start, rest, m);
        let run = down_fast_run(cursor, start, ls, m);
        let tail = down_fast_run(next, start, rest, m);
        assert forall|i: int| 0 <= i < ls.len() implies (#[trigger] run[i] matches Some(a) ==> a
            + ls[i].size() <= cursor) by {
            if i > 0 {
                assert(run[i] == tail[i - 1]);
                assert(ls[i] == rest[i - 1]);
            }
        }
        assert forall|i: int, j: int| 0 <= i < j < ls.len() implies (#[trigger] run[i] matches Some(
            a,
        ) ==> (#[trigger] run[j] matches Some(b) ==> b + ls[j].size() <= a)) by {
            assert(run[j] == tail[j - 1]);
            assert(ls[j] == rest[j - 1]);
            if i > 0 {
                assert(run[i] == tail[i - 1]);
            }
        }
    }
}

/// The results of a sequence of downward checked-path requests lie below
/// the cursor they start from, and each block begins at or after every later
/// block ends.
proof fn lemma_down_checked_run_ordered(cursor: int, start: int, ls: Seq<Layout>)
    requires
        all_valid(ls),
    ensures
        down_checked_run(cursor, start, ls).len() == ls.len(),
        forall|i: int|
            0 <= i < ls.len() ==> (#[trigger] down_checked_run(cursor, start, ls)[i] matches Some(a)
                ==> a + ls[i].size() <= cursor),
        forall|i: int, j: int|
            0 <= i < j < ls.len() ==> (#[trigger] down_checked_run(cursor, start, ls)[i] matches Some(
                a,
            ) ==> (#[trigger] down_checked_run(cursor, start, ls)[j] matches Some(b) ==> b
                + ls[j].size() <= a)),
    decreases ls.len(),
{
    if ls.len() > 0 {
        let l = ls[0];
        let rest = ls.drop_first();
        lemma_rest_valid(ls);
        if cursor >= l.size() {
            lemma_align_down(cursor - l.size(), l.align() as int);
        }
        let next = down_checked_cursor(cursor, start, l);
        lemma_down_checked_run_ordered(next, start, rest);
        let run = down_checked_run(cursor, start, ls);
        let tail = down_checked_run(next, start, rest);
        assert forall|i: int| 0 <= i < ls.len() implies (#[trigger] run[i] matches Some(a) ==> a
            + ls[i].size() <= cursor) by {
            if i > 0 {
                assert(run[i] == tail[i - 1]);
                assert(ls[i] == rest[i - 1]);
            }
        }
        assert forall|i: int, j: int| 0 <= i < j < ls.len() implies (#[trigger] run[i] matches Some(
            a,
        ) ==> (#[trigger] run[j] matches Some(b) ==> b + ls[j].size() <= a)) by {
            assert(run[j] == tail[j - 1]);
            assert(ls[j] == rest[j - 1]);
            if i > 0 {
                assert(run[i] == tail[i - 1]);
            }
        }
    }
}

/// Disjointness: the blocks that a downward arena hands out, by either path,
/// follow one another without overlap; each begins at or after every later
/// one ends.
pub proof fn law_down_blocks_disjoint<const MIN_ALIGN: usize>(
    arena: BumpDown<MIN_ALIGN>,
    ls: Seq<Layout>,
)
    requires
        arena.wf(),
        all_valid(ls),
    ensures
        forall|i: int, j: int|
            0 <= i < j < ls.len() ==> (#[trigger] down_fast_run(
                arena.cursor() as int,
                arena.start() as int,
                ls,
                MIN_ALIGN as int,
            )[i] matches Some(a) ==> (#[trigger] down_fast_run(
                arena.cursor() as int,
                arena.start() as int,
                ls,
                MIN_ALIGN as int,
            )[j] matches Some(b) ==> b + ls[j].size() <= a)),
        forall|i: int, j: int|
            0 <= i < j < ls.len() ==> (#[trigger] down_checked_run(
                arena.cursor() as int,
                arena.start() as int,
                ls,
            )[i] matches Some(a) ==> (#[trigger] down_checked_run(
                arena.cursor() as int,
                arena.start() as int,
                ls,
            )[j] matches Some(b) ==> b + ls[j].size() <= a)),
{
    lemma_down_fast_run_ordered(arena.cursor() as int, arena.start() as int, ls, MIN_ALIGN as int);
    lemma_down_checked_run_ordered(arena.cursor() as int, arena.start() as int, ls);
}

/// Restart: a downward arena that `clear` has emptied answers a sequence of
/// requests, by either path, exactly as the arena answered it when it was
/// first empty, and ends with the same cursor.
pub proof fn law_down_clear_replays<const MIN_ALIGN: usize>(
    fresh: BumpDown<MIN_ALIGN>,
    cleared: BumpDown<MIN_ALIGN>,
    ls: Seq<Layout>,
)
    requires
        fresh.wf(),
        fresh.cursor() == fresh.end(),
        cleared.wf(),
        cleared.start() == fresh.start(),
        cleared.end() == fresh.end(),
        cleared.cursor() == cleared.end(),
    ensures
        down_fast_run(cleared.cursor() as int, cleared.start() as int, ls, MIN_ALIGN as int)
            == down_fast_run(fresh.cursor() as int, fresh.start() as int, ls, MIN_ALIGN as int),
        down_checked_run(cleared.cursor() as int, cleared.start() as int, ls) == down_checked_run(
            fresh.cursor() as int,
            fresh.start() as int,
            ls,
        ),
        down_fast_run_cursor(cleared.cursor() as int, cleared.start() as int, ls, MIN_ALIGN as int)
            == down_fast_run_cursor(fresh.cursor() as int, fresh.start() as int, ls, MIN_ALIGN as int),
        down_checked_run_cursor(cleared.cursor() as int, cleared.start() as int, ls)
            == down_checked_run_cursor(fresh.cursor() as int, fresh.start() as int, ls),
{
}

proof fn lemma_down_paths_agree(cursor: int, start: int, ls: Seq<Layout>, m: usize)
    requires
        is_power_of_two(m),
        cursor >= 0,
        cursor % m as int == 0,
        all_valid(ls),
        sizes_and_aligns_within(ls, m as int),
    ensures
        down_fast_run(cursor, start, ls, m as int) == down_checked_run(cursor, start, ls),
        down_fast_run_cursor(cursor, start, ls, m as int) == down_checked_run_cursor(cursor, start, ls),
    decreases ls.len(),
{
    if ls.len() > 0 {
        let mi = m as int;
        let l = ls[0];
        let rest = ls.drop_first();
        assert(l.is_valid() && l.size() as int % mi == 0 && l.align() <= m);
        lemma_align_up(l.size() as int, mi);
        lemma_power_of_two_divides(l.align(), m);
        let t = cursor - l.size();
        if t >= 0 {
            lemma_difference_of_multiples(cursor, l.size() as int, mi);
            lemma_mod_of_multiple(t, mi, l.align() as int);
            lemma_align_down(t, l.align() as int);
        }
        let next = down_fast_cursor(cursor, start, l, mi);
        assert(next == down_checked_cursor(cursor, start, l));
        assert(all_valid(rest) && sizes_and_aligns_within(rest, mi)) by {
            assert forall|i: int| 0 <= i < rest.len() implies (#[trigger] rest[i]).is_valid()
                && rest[i].size() as int % mi == 0 && rest[i].align() <= m by {
                assert(rest[i] == ls[i + 1]);
            }
        }
        lemma_down_paths_agree(next, start, rest, m);
    }
}

/// Equivalence: from an empty downward arena whose end is a multiple of
/// `MIN_ALIGN`, for requests whose sizes are multiples of `MIN_ALIGN` and
/// whose alignments are at most `MIN_ALIGN`, the fast path and the checked
/// path return the same addresses and leave the same cursor.
pub proof fn law_down_paths_agree<const MIN_ALIGN: usize>(
    arena: BumpDown<MIN_ALIGN>,
    ls: Seq<Layout>,
)
    requires
        arena.wf(),
        arena.cursor() == arena.end(),
        arena.end() % MIN_ALIGN == 0,
        all_valid(ls),
        sizes_and_aligns_within(ls, MIN_ALIGN as int),
    ensures
        down_fast_run(arena.cursor() as int, arena.start() as int, ls, MIN_ALIGN as int)
            == down_checked_run(arena.cursor() as int, arena.start() as int, ls),
        down_fast_run_cursor(arena.cursor() as int, arena.start() as int, ls, MIN_ALIGN as int)
            == down_checked_run_cursor(arena.cursor() as int, arena.start() as int, ls),
{
    lemma_down_paths_agree(arena.cursor() as int, arena.start() as int, ls, MIN_ALIGN);
}

} // verus!
