//! What holds of the merge: on an input in the order of its keys, of ranges
//! that each hold a coordinate, the pieces it gives lie apart, cover what the
//! input covers, and hold each coordinate for the item that wins it.

use crate::range::assert_sorted_iter::sorted_by_key;
use crate::range::resolution::initial_state;
use crate::range::resolution::insert;
use crate::range::resolution::insert_from;
use crate::range::resolution::lemma_pull_bounds;
use crate::range::resolution::lemma_step_lightens;
use crate::range::resolution::outputs;
use crate::range::resolution::outputs_from;
use crate::range::resolution::pieces_of;
use crate::range::resolution::pull;
use crate::range::resolution::step;
use crate::range::resolution::weight;
use crate::range::resolution::MergeState;
use crate::range::resolution::Piece;
use crate::range::OrderedRangeItem;
use vstd::prelude::*;

verus! {

/// The coordinate `x` lies in `piece`.
pub open spec fn covers(piece: Piece, x: int) -> bool {
    piece.start <= x < piece.end
}

/// The coordinate `x` lies in one of `pieces`.
pub open spec fn some_covers(pieces: Seq<Piece>, x: int) -> bool {
    exists|k: int| 0 <= k < pieces.len() && #[trigger] covers(pieces[k], x)
}

/// Every item of `input` carries its own place as its source.
pub open spec fn indexed(input: Seq<Piece>) -> bool {
    forall|i: int| 0 <= i < input.len() ==> (#[trigger] input[i]).source == i
}

/// Every piece holds at least one coordinate.
pub open spec fn well_shaped(pieces: Seq<Piece>) -> bool {
    forall|i: int| 0 <= i < pieces.len() ==> (#[trigger] pieces[i]).start < pieces[i].end
}

/// The order that the merge asks of its input: the starts ascend, and among
/// equal starts the priorities descend.
pub open spec fn ordered_input(input: Seq<Piece>) -> bool {
    forall|i: int, j: int|
        0 <= i <= j < input.len() ==> {
            ||| (#[trigger] input[i]).start < (#[trigger] input[j]).start
            ||| input[i].start == input[j].start && input[i].priority >= input[j].priority
        }
}

/// The pieces lie one behind the other: each ends where a later one starts,
/// or before.
pub open spec fn apart(pieces: Seq<Piece>) -> bool {
    forall|i: int, j: int|
        0 <= i < j < pieces.len() ==> (#[trigger] pieces[i]).end <= (#[trigger] pieces[j]).start
}

/// The item at `winner` keeps a coordinate that the item at `other` covers
/// too: it has the higher priority, or the same and comes no later.
pub open spec fn holds_against(input: Seq<Piece>, winner: int, other: int) -> bool {
    ||| input[winner].priority > input[other].priority
    ||| input[winner].priority == input[other].priority && winner <= other
}

/// `piece` is a part of one of the first `n` items of `input`, with the
/// priority of that item, and holds a coordinate.
pub open spec fn part_of(input: Seq<Piece>, n: int, piece: Piece) -> bool {
    &&& piece.start < piece.end
    &&& 0 <= piece.source < n
    &&& piece.priority == input[piece.source].priority
    &&& input[piece.source].start <= piece.start
    &&& piece.end <= input[piece.source].end
}

/// The item that `piece` is a part of holds every coordinate of the piece
/// against each of the first `n` items that cover it.
#[verifier::opaque]
pub open spec fn wins(input: Seq<Piece>, n: int, piece: Piece) -> bool {
    forall|x: int, j: int|
        0 <= j < n && covers(piece, x) && #[trigger] covers(input[j], x) ==> holds_against(
            input,
            piece.source,
            j,
        )
}

/// `piece` is a part of one of the first `n` items, and that item wins
/// every coordinate of the piece.
pub open spec fn part_of_winner(input: Seq<Piece>, n: int, piece: Piece) -> bool {
    part_of(input, n, piece) && wins(input, n, piece)
}

/// Every coordinate that one of the first `n` items covers lies in one of
/// the pieces.
#[verifier::opaque]
pub open spec fn covering(input: Seq<Piece>, n: int, pieces: Seq<Piece>) -> bool {
    forall|x: int, j: int|
        0 <= j < n && #[trigger] covers(input[j], x) ==> some_covers(pieces, x)
}

/// A piece that starts behind the start of its item follows at once on a
/// piece of no lower priority.
pub open spec fn seamed(input: Seq<Piece>, pieces: Seq<Piece>) -> bool {
    forall|k: int|
        0 <= k < pieces.len() && (#[trigger] pieces[k]).start > input[pieces[k].source].start ==> {
            &&& k > 0
            &&& pieces[k - 1].end == pieces[k].start
            &&& pieces[k - 1].priority >= pieces[k].priority
        }
}

/// `pieces` are the merge of the first `n` items of `input`: parts of the
/// items that win their coordinates, lying apart, with nothing left out.
#[verifier::opaque]
pub open spec fn resolved(input: Seq<Piece>, n: int, pieces: Seq<Piece>) -> bool {
    &&& forall|k: int| 0 <= k < pieces.len() ==> part_of_winner(input, n, #[trigger] pieces[k])
    &&& apart(pieces)
    &&& covering(input, n, pieces)
    &&& seamed(input, pieces)
}

/// The merge of the first `n` items of `input`, as insertions one after the
/// other into an empty buffer.
pub open spec fn resolve(input: Seq<Piece>, n: nat) -> Seq<Piece>
    decreases n,
{
    if n == 0 {
        Seq::empty()
    } else {
        insert(resolve(input, (n - 1) as nat), input[n - 1])
    }
}

/// What is left, behind `new`, of the last entry that the visit of an
/// insertion has dealt with: the entries from `skip` on lie wholly behind
/// `new`, and those between `stop` and `skip` have been dealt with.
spec fn cut_behind(pieces: Seq<Piece>, new: Piece, stop: int, skip: int) -> Seq<Piece> {
    if stop + 1 < skip && pieces[skip - 1].end > new.end {
        seq![Piece { start: new.end, ..pieces[skip - 1] }]
    } else {
        Seq::empty()
    }
}

/// The entries from `skip` on, which lie wholly behind the new item.
spec fn skipped(pieces: Seq<Piece>, skip: int) -> Seq<Piece> {
    pieces.subrange(skip, pieces.len() as int)
}

/// What stands behind the new item after an insertion.
spec fn rest_behind(pieces: Seq<Piece>, new: Piece, stop: int, skip: int) -> Seq<Piece> {
    cut_behind(pieces, new, stop, skip) + skipped(pieces, skip)
}

/// The visit of an insertion of `new` can end at the entry `stop` (at none,
/// for -1): the entries from `skip` on start at or behind the end of `new`;
/// every entry between the two starts within `new`, ends behind the start of
/// `new` and has a lower priority; all of these but the last end within
/// `new`; and the entry at `stop` starts before the end of `new` and is
/// either out of reach of `new`, or of no lower priority, or starts before
/// `new`.
spec fn stops_at(pieces: Seq<Piece>, new: Piece, stop: int, skip: int) -> bool {
    &&& -1 <= stop < skip <= pieces.len()
    &&& forall|k: int| skip <= k < pieces.len() ==> (#[trigger] pieces[k]).start >= new.end
    &&& forall|k: int|
        stop < k < skip ==> {
            &&& new.start <= (#[trigger] pieces[k]).start < new.end
            &&& pieces[k].priority < new.priority
            &&& pieces[k].end > new.start
        }
    &&& forall|k: int| stop < k < skip - 1 ==> (#[trigger] pieces[k]).end <= new.end
    &&& stop >= 0 ==> {
        &&& pieces[stop].start < new.end
        &&& {
            ||| pieces[stop].end <= new.start
            ||| pieces[stop].priority >= new.priority
            ||| pieces[stop].start < new.start
        }
    }
}

/// What an insertion of `new` puts in the place of the entry `stop`, where
/// its visit ends.
spec fn middle(pieces: Seq<Piece>, new: Piece, stop: int) -> Seq<Piece> {
    if stop < 0 {
        seq![new]
    } else {
        let existing = pieces[stop];
        let before = Piece { end: new.start, ..existing };
        let after = Piece { start: new.end, ..existing };
        if existing.end <= new.start {
            seq![existing, new]
        } else if existing.priority >= new.priority {
            if existing.end < new.end {
                seq![existing, Piece { start: existing.end, ..new }]
            } else {
                seq![existing]
            }
        } else if new.end < existing.end {
            seq![before, new, Piece { cloned: true, ..after }]
        } else {
            seq![before, new]
        }
    }
}

/// The entries before `stop`, which an insertion that ends there leaves as
/// they are.
spec fn head(pieces: Seq<Piece>, stop: int) -> Seq<Piece> {
    if stop < 0 {
        Seq::empty()
    } else {
        pieces.subrange(0, stop)
    }
}

/// The buffer that an insertion of `new` leaves when its visit ends at the
/// entry `stop`.
spec fn landed(pieces: Seq<Piece>, new: Piece, stop: int, skip: int) -> Seq<Piece> {
    head(pieces, stop) + middle(pieces, new, stop) + rest_behind(pieces, new, stop, skip)
}

/// The visit of an insertion, followed from the entry below `idx` down to
/// where it ends.
#[verifier::rlimit(40)]
proof fn lemma_visit_lands(
    pieces: Seq<Piece>,
    new: Piece,
    current: Seq<Piece>,
    idx: nat,
    skip: int,
) -> (r: (int, int))
    requires
        well_shaped(pieces),
        apart(pieces),
        new.start < new.end,
        idx <= skip <= pieces.len(),
        current == pieces.subrange(0, idx as int) + rest_behind(pieces, new, idx - 1, skip),
        forall|k: int| skip <= k < pieces.len() ==> (#[trigger] pieces[k]).start >= new.end,
        forall|k: int|
            idx <= k < skip ==> {
                &&& new.start <= (#[trigger] pieces[k]).start < new.end
                &&& pieces[k].priority < new.priority
                &&& pieces[k].end > new.start
            },
        forall|k: int| idx <= k < skip - 1 ==> (#[trigger] pieces[k]).end <= new.end,
    ensures
        r.0 < idx,
        stops_at(pieces, new, r.0, r.1),
        insert_from(current, new, idx) == landed(pieces, new, r.0, r.1),
    decreases idx,
{
    let rest = rest_behind(pieces, new, idx - 1, skip);
    if idx == 0 {
        assert(current =~= rest);
        assert(seq![new] + current =~= head(pieces, -1) + middle(pieces, new, -1) + rest);
        (-1, skip)
    } else {
        let i = idx - 1;
        let existing = pieces[i];
        let kept = pieces.subrange(0, i);
        assert(current[i] == existing);
        assert(current =~= kept + seq![existing] + rest);
        let before = Piece { end: new.start, ..existing };
        let after = Piece { start: new.end, ..existing };
        if existing.end <= new.start {
            assert(current.insert(idx as int, new) =~= kept + seq![existing, new] + rest);
            (i, skip)
        } else if existing.start >= new.end {
            if idx < skip {
                assert(pieces[i].end <= pieces[idx as int].start);
            }
            assert(idx == skip);
            assert(current =~= pieces.subrange(0, i) + rest_behind(pieces, new, i - 1, i));
            lemma_visit_lands(pieces, new, current, i as nat, i)
        } else if existing.priority >= new.priority {
            if existing.end < new.end {
                assert(current.insert(idx as int, Piece { start: existing.end, ..new }) =~= kept
                    + seq![existing, Piece { start: existing.end, ..new }] + rest);
            } else {
                assert(current =~= kept + seq![existing] + rest);
            }
            (i, skip)
        } else if existing.start < new.start {
            if new.end < existing.end {
                let split = Piece { cloned: true, ..after };
                assert(current.update(i, before).insert(idx as int, new).insert(
                    idx as int + 1,
                    split,
                ) =~= kept + seq![before, new, split] + rest);
            } else {
                assert(current.update(i, before).insert(idx as int, new) =~= kept + seq![
                    before,
                    new,
                ] + rest);
            }
            (i, skip)
        } else {
            if i < skip - 1 {
                // An entry that is not the last one dealt with ends within `new`.
                let next = i + 1;
                assert(pieces[i].end <= pieces[next].start);
                assert(existing.end <= new.end);
            }
            if new.end < existing.end {
                assert(i == skip - 1);
                let shorter = current.update(i, after);
                assert(shorter =~= pieces.subrange(0, i) + rest_behind(pieces, new, i - 1, skip));
                lemma_visit_lands(pieces, new, shorter, i as nat, skip)
            } else {
                let shorter = current.remove(i);
                assert(shorter =~= pieces.subrange(0, i) + rest_behind(pieces, new, i - 1, skip));
                lemma_visit_lands(pieces, new, shorter, i as nat, skip)
            }
        }
    }
}

/// Each piece ends where the next one starts, or before.
#[verifier::opaque]
spec fn linked(pieces: Seq<Piece>) -> bool {
    forall|k: int| 0 <= k < pieces.len() - 1 ==> (#[trigger] pieces[k]).end <= pieces[k + 1].start
}

proof fn lemma_linked_pieces_lie_apart(pieces: Seq<Piece>)
    requires
        linked(pieces),
        well_shaped(pieces),
    ensures
        apart(pieces),
{
    reveal(linked);
    assert forall|i: int, j: int| 0 <= i < j < pieces.len() implies (#[trigger] pieces[i]).end <= (
    #[trigger] pieces[j]).start by {
        lemma_linked_reach(pieces, i, j);
    }
}

proof fn lemma_linked_reach(pieces: Seq<Piece>, i: int, j: int)
    requires
        linked(pieces),
        well_shaped(pieces),
        0 <= i < j < pieces.len(),
    ensures
        pieces[i].end <= pieces[j].start,
    decreases j - i,
{
    reveal(linked);
    if i + 1 < j {
        lemma_linked_reach(pieces, i + 1, j);
        assert(pieces[i].end <= pieces[i + 1].start);
        assert(pieces[i + 1].start < pieces[i + 1].end);
    } else {
        assert(pieces[i].end <= pieces[i + 1].start);
    }
}

/// The setting of one insertion: the input is in order, `pieces` are the
/// merge of its first `n` items, and the visit of the next item can end at
/// `stop`.
spec fn insertion_setting(
    input: Seq<Piece>,
    n: int,
    pieces: Seq<Piece>,
    stop: int,
    skip: int,
) -> bool {
    &&& indexed(input)
    &&& well_shaped(input)
    &&& ordered_input(input)
    &&& 0 <= n < input.len()
    &&& resolved(input, n, pieces)
    &&& stops_at(pieces, input[n], stop, skip)
}

/// Behind the start of the next item the priorities of the pieces do not
/// rise.
#[verifier::rlimit(40)]
proof fn lemma_seam_priority(input: Seq<Piece>, n: int, pieces: Seq<Piece>, k: int, s: int)
    requires
        ordered_input(input),
        0 <= n < input.len(),
        resolved(input, n, pieces),
        0 <= k <= s < pieces.len(),
        pieces[k].end > input[n].start,
    ensures
        pieces[k].priority >= pieces[s].priority,
    decreases s - k,
{
    reveal(resolved);
    if k < s {
        let m = k + 1;
        assert(pieces[k].end <= pieces[m].start);
        assert(part_of_winner(input, n, pieces[m]));
        let source = pieces[m].source;
        assert(input[source].start <= input[n].start);
        assert(pieces[m].start > input[source].start);
        assert(pieces[m - 1].priority >= pieces[m].priority);
        lemma_seam_priority(input, n, pieces, m, s);
    }
}

/// From the start of the next item up to the end of a piece there is no
/// coordinate that no piece holds.
#[verifier::rlimit(40)]
proof fn lemma_seam_cover(input: Seq<Piece>, n: int, pieces: Seq<Piece>, s: int, x: int) -> (k: int)
    requires
        ordered_input(input),
        0 <= n < input.len(),
        resolved(input, n, pieces),
        0 <= s < pieces.len(),
        input[n].start <= x < pieces[s].end,
    ensures
        0 <= k <= s,
        covers(pieces[k], x),
    decreases s,
{
    reveal(resolved);
    if pieces[s].start <= x {
        s
    } else {
        assert(part_of_winner(input, n, pieces[s]));
        let source = pieces[s].source;
        assert(input[source].start <= input[n].start);
        assert(pieces[s].start > input[source].start);
        assert(pieces[s - 1].end == pieces[s].start);
        lemma_seam_cover(input, n, pieces, s - 1, x)
    }
}

/// An entry that the insertion leaves as it is stays a part of a winner.
#[verifier::rlimit(40)]
proof fn lemma_kept_part(input: Seq<Piece>, n: int, pieces: Seq<Piece>, stop: int, skip: int, k: int)
    requires
        insertion_setting(input, n, pieces, stop, skip),
        0 <= k <= stop,
        k == stop ==> pieces[stop].end <= input[n].start || pieces[stop].priority
            >= input[n].priority,
    ensures
        part_of_winner(input, n + 1, pieces[k]),
{
    reveal(resolved);
    reveal(wins);
    let new = input[n];
    let piece = pieces[k];
    assert(part_of_winner(input, n, piece));
    assert(part_of_winner(input, n, pieces[stop]));
    if piece.end > new.start {
        if k < stop {
            assert(pieces[k].end <= pieces[stop].start);
            lemma_seam_priority(input, n, pieces, k, stop);
        }
        assert(piece.priority >= new.priority);
    }
    assert forall|x: int, j: int|
        0 <= j < n + 1 && covers(piece, x) && #[trigger] covers(input[j], x) implies holds_against(
        input,
        piece.source,
        j,
    ) by {
        if j == n {
            assert(piece.end > new.start);
        }
    }
}

/// A part of an entry that lies outside the new item stays a part of a
/// winner.
#[verifier::rlimit(40)]
proof fn lemma_cut_part(input: Seq<Piece>, n: int, whole: Piece, part: Piece)
    requires
        0 <= n < input.len(),
        part_of_winner(input, n, whole),
        part.source == whole.source,
        part.priority == whole.priority,
        whole.start <= part.start < part.end <= whole.end,
        part.end <= input[n].start || input[n].end <= part.start,
    ensures
        part_of_winner(input, n + 1, part),
{
    reveal(wins);
    assert forall|x: int, j: int|
        0 <= j < n + 1 && covers(part, x) && #[trigger] covers(input[j], x) implies holds_against(
        input,
        part.source,
        j,
    ) by {
        assert(covers(whole, x));
    }
}

/// What the insertion places of the new item is a part of a winner: where
/// it is placed, only pieces of lower priority stood.
#[verifier::rlimit(40)]
proof fn lemma_new_part(input: Seq<Piece>, n: int, pieces: Seq<Piece>, part: Piece)
    requires
        indexed(input),
        well_shaped(input),
        0 <= n < input.len(),
        resolved(input, n, pieces),
        part == (Piece { start: part.start, ..input[n] }),
        input[n].start <= part.start < input[n].end,
        forall|k: int|
            0 <= k < pieces.len() && (#[trigger] pieces[k]).end > part.start && pieces[k].start
                < input[n].end ==> pieces[k].priority < input[n].priority,
    ensures
        part_of_winner(input, n + 1, part),
{
    reveal(resolved);
    reveal(wins);
    reveal(covering);
    let new = input[n];
    assert(part.source == n);
    assert forall|x: int, j: int|
        0 <= j < n + 1 && covers(part, x) && #[trigger] covers(input[j], x) implies holds_against(
        input,
        part.source,
        j,
    ) by {
        if j < n {
            let k = choose|k: int| 0 <= k < pieces.len() && #[trigger] covers(pieces[k], x);
            assert(part_of_winner(input, n, pieces[k]));
            assert(holds_against(input, pieces[k].source, j));
            assert(pieces[k].priority < new.priority);
        }
    }
}

/// An entry before `stop` ends at or before the start of the entry there.
proof fn lemma_before_stop(input: Seq<Piece>, n: int, pieces: Seq<Piece>, stop: int, skip: int, k: int)
    requires
        insertion_setting(input, n, pieces, stop, skip),
        0 <= k < stop,
    ensures
        pieces[k].end <= pieces[stop].start,
        pieces[stop].start < pieces[stop].end,
{
    reveal(resolved);
    assert(part_of_winner(input, n, pieces[stop]));
}

/// An entry behind `stop` holds a coordinate and starts where the entry at
/// `stop` ends, or behind.
proof fn lemma_behind_stop(
    input: Seq<Piece>,
    n: int,
    pieces: Seq<Piece>,
    stop: int,
    skip: int,
    k: int,
)
    requires
        insertion_setting(input, n, pieces, stop, skip),
        stop < k < pieces.len(),
    ensures
        pieces[k].start < pieces[k].end,
        stop >= 0 ==> pieces[stop].end <= pieces[k].start,
        stop >= 0 ==> pieces[stop].start < pieces[stop].end,
{
    reveal(resolved);
    assert(part_of_winner(input, n, pieces[k]));
    if stop >= 0 {
        assert(part_of_winner(input, n, pieces[stop]));
    }
}

/// The pieces that the insertion puts where its visit ends are parts of
/// winners.
#[verifier::rlimit(40)]
proof fn lemma_middle_parts(input: Seq<Piece>, n: int, pieces: Seq<Piece>, stop: int, skip: int)
    requires
        insertion_setting(input, n, pieces, stop, skip),
    ensures
        forall|t: int|
            0 <= t < middle(pieces, input[n], stop).len() ==> part_of_winner(
                input,
                n + 1,
                #[trigger] middle(pieces, input[n], stop)[t],
            ),
{
    reveal(resolved);
    let new = input[n];
    let placed = middle(pieces, new, stop);
    if stop < 0 {
        lemma_new_part(input, n, pieces, new);
    } else {
        let existing = pieces[stop];
        assert(part_of_winner(input, n, existing));
        let before = Piece { end: new.start, ..existing };
        let after = Piece { start: new.end, ..existing };
        assert forall|k: int| 0 <= k < stop implies (#[trigger] pieces[k]).end
            <= existing.start by {
            lemma_before_stop(input, n, pieces, stop, skip, k);
        }
        if existing.end <= new.start {
            lemma_kept_part(input, n, pieces, stop, skip, stop);
            lemma_new_part(input, n, pieces, new);
        } else if existing.priority >= new.priority {
            lemma_kept_part(input, n, pieces, stop, skip, stop);
            if existing.end < new.end {
                lemma_new_part(input, n, pieces, Piece { start: existing.end, ..new });
            }
        } else {
            lemma_cut_part(input, n, existing, before);
            lemma_new_part(input, n, pieces, new);
            if new.end < existing.end {
                lemma_cut_part(input, n, existing, Piece { cloned: true, ..after });
            }
        }
    }
}

/// What stands behind the new item after the insertion are parts of
/// winners.
#[verifier::rlimit(40)]
proof fn lemma_rest_part(
    input: Seq<Piece>,
    n: int,
    pieces: Seq<Piece>,
    stop: int,
    skip: int,
    t: int,
)
    requires
        insertion_setting(input, n, pieces, stop, skip),
        0 <= t < rest_behind(pieces, input[n], stop, skip).len(),
    ensures
        part_of_winner(input, n + 1, rest_behind(pieces, input[n], stop, skip)[t]),
{
    reveal(resolved);
    let cut = cut_behind(pieces, input[n], stop, skip);
    let rest = rest_behind(pieces, input[n], stop, skip);
    if t < cut.len() {
        let last = pieces[skip - 1];
        assert(part_of_winner(input, n, last));
        lemma_cut_part(input, n, last, cut[0]);
        assert(rest[t] == cut[0]);
    } else {
        let k = skip + t - cut.len();
        assert(rest[t] == pieces[k]);
        assert(part_of_winner(input, n, pieces[k]));
        lemma_cut_part(input, n, pieces[k], pieces[k]);
    }
}

/// Where the pieces that an insertion leaves come from: the entries kept,
/// then the pieces placed, then the rest.
proof fn lemma_landed_at(pieces: Seq<Piece>, new: Piece, stop: int, skip: int, k: int)
    requires
        -1 <= stop < skip <= pieces.len(),
        0 <= k < landed(pieces, new, stop, skip).len(),
    ensures
        ({
            let kept = head(pieces, stop);
            let placed = middle(pieces, new, stop);
            let cut = cut_behind(pieces, new, stop, skip);
            let rest = rest_behind(pieces, new, stop, skip);
            let all = landed(pieces, new, stop, skip);
            let base = kept.len() + placed.len();
            &&& all.len() == base + rest.len()
            &&& rest.len() == cut.len() + pieces.len() - skip
            &&& kept.len() == if stop < 0 {
                0
            } else {
                stop
            }
            &&& k < kept.len() ==> all[k] == pieces[k]
            &&& kept.len() <= k < base ==> all[k] == placed[k - kept.len()]
            &&& base <= k ==> all[k] == rest[k - base]
            &&& base <= k < base + cut.len() ==> all[k] == cut[0]
            &&& base + cut.len() <= k ==> all[k] == pieces[skip + k - base - cut.len()]
        }),
{
}

/// The piece at `k` of what the insertion leaves is a part of a winner.
#[verifier::rlimit(40)]
proof fn lemma_landed_part_at(
    input: Seq<Piece>,
    n: int,
    pieces: Seq<Piece>,
    stop: int,
    skip: int,
    k: int,
)
    requires
        insertion_setting(input, n, pieces, stop, skip),
        0 <= k < landed(pieces, input[n], stop, skip).len(),
    ensures
        part_of_winner(input, n + 1, landed(pieces, input[n], stop, skip)[k]),
{
    let new = input[n];
    let kept = head(pieces, stop);
    let placed = middle(pieces, new, stop);
    lemma_landed_at(pieces, new, stop, skip, k);
    if k < kept.len() {
        lemma_kept_part(input, n, pieces, stop, skip, k);
    } else if k < kept.len() + placed.len() {
        lemma_middle_parts(input, n, pieces, stop, skip);
    } else {
        lemma_rest_part(input, n, pieces, stop, skip, k - kept.len() - placed.len());
    }
}

/// All the pieces that the insertion leaves are parts of winners.
#[verifier::rlimit(40)]
proof fn lemma_landed_parts(input: Seq<Piece>, n: int, pieces: Seq<Piece>, stop: int, skip: int)
    requires
        insertion_setting(input, n, pieces, stop, skip),
    ensures
        forall|k: int|
            0 <= k < landed(pieces, input[n], stop, skip).len() ==> part_of_winner(
                input,
                n + 1,
                #[trigger] landed(pieces, input[n], stop, skip)[k],
            ),
{
    let all = landed(pieces, input[n], stop, skip);
    assert forall|k: int| 0 <= k < all.len() implies part_of_winner(
        input,
        n + 1,
        #[trigger] all[k],
    ) by {
        lemma_landed_part_at(input, n, pieces, stop, skip, k);
    }
}

/// How the pieces placed at `stop` follow on each other, on what stands
/// before them, and what follows on them.
#[verifier::rlimit(40)]
proof fn lemma_middle_shape(input: Seq<Piece>, n: int, pieces: Seq<Piece>, stop: int, skip: int)
    requires
        insertion_setting(input, n, pieces, stop, skip),
    ensures
        ({
            let new = input[n];
            let placed = middle(pieces, new, stop);
            let cut = cut_behind(pieces, new, stop, skip);
            let rest = rest_behind(pieces, new, stop, skip);
            &&& 1 <= placed.len() <= 3
            &&& stop < 0 ==> placed[0] == new
            &&& stop >= 0 ==> {
                &&& placed[0].start == pieces[stop].start
                &&& placed[0].source == pieces[stop].source
                &&& placed[0].priority == pieces[stop].priority
            }
            &&& forall|t: int|
                1 <= t < placed.len() ==> (#[trigger] placed[t - 1]).end <= placed[t].start
            &&& forall|t: int|
                1 <= t < placed.len() && (#[trigger] placed[t]).start
                    > input[placed[t].source].start ==> {
                    &&& placed[t - 1].end == placed[t].start
                    &&& placed[t - 1].priority >= placed[t].priority
                }
            &&& rest.len() > 0 ==> placed[placed.len() - 1].end <= rest[0].start
            &&& cut.len() > 0 ==> {
                &&& placed[placed.len() - 1].end == new.end
                &&& placed[placed.len() - 1].priority >= new.priority
                &&& cut[0].start == new.end
                &&& cut[0].priority < new.priority
            }
        }),
{
    reveal(resolved);
    let new = input[n];
    let placed = middle(pieces, new, stop);
    let cut = cut_behind(pieces, new, stop, skip);
    let rest = rest_behind(pieces, new, stop, skip);
    if stop >= 0 {
        assert(part_of_winner(input, n, pieces[stop]));
        if stop + 1 < pieces.len() {
            lemma_behind_stop(input, n, pieces, stop, skip, stop + 1);
        }
    }
    if cut.len() > 0 {
        lemma_behind_stop(input, n, pieces, stop, skip, skip - 1);
        assert(rest[0] == cut[0]);
    } else if rest.len() > 0 {
        assert(rest[0] == pieces[skip]);
        if stop + 1 < skip {
            // Entries were dealt with, and the last of them ends within `new`.
            lemma_behind_stop(input, n, pieces, stop, skip, skip - 1);
            assert(pieces[skip - 1].end <= new.end);
        }
    }
}

/// Of the merge of the first `n` items a piece ends where a later one
/// starts, or before.
proof fn lemma_resolved_apart(input: Seq<Piece>, n: int, pieces: Seq<Piece>, i: int, j: int)
    requires
        resolved(input, n, pieces),
        0 <= i < j < pieces.len(),
    ensures
        pieces[i].end <= pieces[j].start,
{
    reveal(resolved);
}

/// What stands behind the new item after the insertion is linked.
#[verifier::rlimit(40)]
proof fn lemma_rest_linked(
    input: Seq<Piece>,
    n: int,
    pieces: Seq<Piece>,
    stop: int,
    skip: int,
    t: int,
)
    requires
        insertion_setting(input, n, pieces, stop, skip),
        0 <= t < rest_behind(pieces, input[n], stop, skip).len() - 1,
    ensures
        rest_behind(pieces, input[n], stop, skip)[t].end <= rest_behind(
            pieces,
            input[n],
            stop,
            skip,
        )[t + 1].start,
{
    let cut = cut_behind(pieces, input[n], stop, skip);
    let rest = rest_behind(pieces, input[n], stop, skip);
    if t < cut.len() {
        assert(rest[t] == cut[0]);
        assert(rest[t + 1] == pieces[skip]);
        lemma_resolved_apart(input, n, pieces, skip - 1, skip);
    } else {
        let k = skip + t - cut.len();
        assert(rest[t] == pieces[k]);
        assert(rest[t + 1] == pieces[k + 1]);
        lemma_resolved_apart(input, n, pieces, k, k + 1);
    }
}

/// The pieces that the insertion leaves are linked.
#[verifier::rlimit(40)]
proof fn lemma_landed_linked(input: Seq<Piece>, n: int, pieces: Seq<Piece>, stop: int, skip: int)
    requires
        insertion_setting(input, n, pieces, stop, skip),
    ensures
        linked(landed(pieces, input[n], stop, skip)),
{
    reveal(linked);
    let all = landed(pieces, input[n], stop, skip);
    assert forall|k: int| 0 <= k < all.len() - 1 implies (#[trigger] all[k]).end <= all[k
        + 1].start by {
        lemma_linked_at(input, n, pieces, stop, skip, k);
    }
}

/// The piece at `k` of what the insertion leaves ends where the next one
/// starts, or before.
#[verifier::rlimit(40)]
proof fn lemma_linked_at(
    input: Seq<Piece>,
    n: int,
    pieces: Seq<Piece>,
    stop: int,
    skip: int,
    k: int,
)
    requires
        insertion_setting(input, n, pieces, stop, skip),
        0 <= k < landed(pieces, input[n], stop, skip).len() - 1,
    ensures
        landed(pieces, input[n], stop, skip)[k].end <= landed(pieces, input[n], stop, skip)[k
            + 1].start,
{
    let new = input[n];
    let kept = head(pieces, stop);
    let placed = middle(pieces, new, stop);
    let rest = rest_behind(pieces, new, stop, skip);
    let all = landed(pieces, new, stop, skip);
    let base = kept.len() + placed.len();
    lemma_landed_at(pieces, new, stop, skip, k);
    lemma_landed_at(pieces, new, stop, skip, k + 1);
    lemma_middle_shape(input, n, pieces, stop, skip);
    if k + 1 < kept.len() {
        reveal(resolved);
        assert(pieces[k].end <= pieces[k + 1].start);
    } else if k + 1 == kept.len() {
        lemma_before_stop(input, n, pieces, stop, skip, k);
    } else if k + 1 < base {
        let t = k + 1 - kept.len();
        assert(placed[t - 1].end <= placed[t].start);
    } else if k + 1 == base {
        assert(all[k] == placed[placed.len() - 1]);
        assert(all[k + 1] == rest[0]);
    } else {
        lemma_rest_linked(input, n, pieces, stop, skip, k - base);
    }
}

/// The pieces that the insertion leaves cover what the items cover.
#[verifier::rlimit(40)]
proof fn lemma_landed_covering(input: Seq<Piece>, n: int, pieces: Seq<Piece>, stop: int, skip: int)
    requires
        insertion_setting(input, n, pieces, stop, skip),
    ensures
        covering(input, n + 1, landed(pieces, input[n], stop, skip)),
{
    reveal(resolved);
    let new = input[n];
    let all = landed(pieces, new, stop, skip);
    reveal(covering);
    assert forall|x: int, j: int|
        0 <= j < n + 1 && #[trigger] covers(input[j], x) implies some_covers(all, x) by {
        // The entry that held `x` before, or -1 where the new item brings it.
        let held = if j == n {
            if stop >= 0 && pieces[stop].priority >= new.priority && new.start < pieces[stop].end
                && x < pieces[stop].end {
                lemma_seam_cover(input, n, pieces, stop, x)
            } else {
                -1
            }
        } else {
            choose|k: int| 0 <= k < pieces.len() && #[trigger] covers(pieces[k], x)
        };
        lemma_covered_after(input, n, pieces, stop, skip, x, held);
    }
}

/// A coordinate that the entry `held` covered, or that the new item covers
/// where no entry of at least its priority does, lies in a piece that the
/// insertion leaves.
#[verifier::rlimit(40)]
proof fn lemma_covered_after(
    input: Seq<Piece>,
    n: int,
    pieces: Seq<Piece>,
    stop: int,
    skip: int,
    x: int,
    held: int,
)
    requires
        insertion_setting(input, n, pieces, stop, skip),
        -1 <= held < pieces.len(),
        held >= 0 ==> covers(pieces[held], x),
        held < 0 ==> covers(input[n], x) && (stop >= 0 && pieces[stop].priority
            >= input[n].priority && input[n].start < pieces[stop].end ==> x
            >= pieces[stop].end),
    ensures
        some_covers(landed(pieces, input[n], stop, skip), x),
{
    reveal(resolved);
    let new = input[n];
    let kept = head(pieces, stop);
    let placed = middle(pieces, new, stop);
    let cut = cut_behind(pieces, new, stop, skip);
    let all = landed(pieces, new, stop, skip);
    let base = kept.len() as int;
    let behind = base + placed.len();
    if 0 <= held < stop {
        lemma_landed_at(pieces, new, stop, skip, held);
        assert(covers(all[held], x));
    } else if held >= skip {
        let k = behind + cut.len() + held - skip;
        lemma_landed_at(pieces, new, stop, skip, k);
        assert(covers(all[k], x));
    } else if held > stop && x >= new.end {
        assert(held == skip - 1);
        lemma_landed_at(pieces, new, stop, skip, behind);
        assert(covers(all[behind], x));
    } else {
        // `x` lies in the new item, or in the entry at `stop`.
        if held > stop {
            lemma_behind_stop(input, n, pieces, stop, skip, held);
        }
        lemma_landed_at(pieces, new, stop, skip, base);
        if placed.len() > 1 {
            lemma_landed_at(pieces, new, stop, skip, base + 1);
        }
        if placed.len() > 2 {
            lemma_landed_at(pieces, new, stop, skip, base + 2);
        }
        if stop < 0 {
            assert(covers(all[base], x));
        } else {
            let existing = pieces[stop];
            assert(part_of_winner(input, n, existing));
            if existing.end <= new.start {
                assert(covers(all[base], x) || covers(all[base + 1], x));
            } else if existing.priority >= new.priority {
                if existing.end < new.end {
                    assert(covers(all[base], x) || covers(all[base + 1], x));
                } else {
                    assert(covers(all[base], x));
                }
            } else if new.end < existing.end {
                assert(covers(all[base], x) || covers(all[base + 1], x) || covers(
                    all[base + 2],
                    x,
                ));
            } else {
                assert(covers(all[base], x) || covers(all[base + 1], x));
            }
        }
    }
}

/// Where no piece is left of the entries dealt with, the first entry that
/// lies wholly behind the new item, if it starts behind the start of its
/// item, follows at once on the last piece placed, of no lower priority.
#[verifier::rlimit(40)]
proof fn lemma_skip_seam(input: Seq<Piece>, n: int, pieces: Seq<Piece>, stop: int, skip: int)
    requires
        insertion_setting(input, n, pieces, stop, skip),
        cut_behind(pieces, input[n], stop, skip).len() == 0,
        skip < pieces.len(),
        pieces[skip].start > input[pieces[skip].source].start,
    ensures
        ({
            let placed = middle(pieces, input[n], stop);
            &&& placed[placed.len() - 1].end == pieces[skip].start
            &&& placed[placed.len() - 1].priority >= pieces[skip].priority
        }),
{
    let new = input[n];
    let placed = middle(pieces, new, stop);
    lemma_resolved_shape(input, n, pieces);
    let before = pieces[skip - 1];
    assert(skip > 0 && before.end == pieces[skip].start && before.priority
        >= pieces[skip].priority);
    assert(pieces[skip].start >= new.end);
    if stop + 1 < skip {
        // The entry before is one that was dealt with, and nothing is left of it.
        assert(before.end <= new.end);
        assert(before.priority < new.priority);
        if stop >= 0 {
            let next = pieces[stop + 1];
            assert(pieces[stop].end <= next.start);
            assert(next.start < new.end);
        }
        assert(placed[placed.len() - 1].end == new.end);
        assert(placed[placed.len() - 1].priority >= new.priority);
    } else {
        assert(stop == skip - 1);
        assert(before.start < before.end);
    }
}

/// The pieces that the insertion leaves are seamed.
#[verifier::rlimit(40)]
proof fn lemma_landed_seamed(input: Seq<Piece>, n: int, pieces: Seq<Piece>, stop: int, skip: int)
    requires
        insertion_setting(input, n, pieces, stop, skip),
    ensures
        seamed(input, landed(pieces, input[n], stop, skip)),
{
    let all = landed(pieces, input[n], stop, skip);
    assert forall|k: int|
        0 <= k < all.len() && (#[trigger] all[k]).start > input[all[k].source].start implies {
        &&& k > 0
        &&& all[k - 1].end == all[k].start
        &&& all[k - 1].priority >= all[k].priority
    } by {
        lemma_seam_at(input, n, pieces, stop, skip, k);
    }
}

/// The piece at `k` of what the insertion leaves, if it starts behind the
/// start of its item, follows at once on a piece of no lower priority.
#[verifier::rlimit(40)]
proof fn lemma_seam_at(
    input: Seq<Piece>,
    n: int,
    pieces: Seq<Piece>,
    stop: int,
    skip: int,
    k: int,
)
    requires
        insertion_setting(input, n, pieces, stop, skip),
        0 <= k < landed(pieces, input[n], stop, skip).len(),
        landed(pieces, input[n], stop, skip)[k].start > input[landed(
            pieces,
            input[n],
            stop,
            skip,
        )[k].source].start,
    ensures
        k > 0,
        landed(pieces, input[n], stop, skip)[k - 1].end == landed(
            pieces,
            input[n],
            stop,
            skip,
        )[k].start,
        landed(pieces, input[n], stop, skip)[k - 1].priority >= landed(
            pieces,
            input[n],
            stop,
            skip,
        )[k].priority,
{
    reveal(resolved);
    let new = input[n];
    let kept = head(pieces, stop);
    let placed = middle(pieces, new, stop);
    let cut = cut_behind(pieces, new, stop, skip);
    let all = landed(pieces, new, stop, skip);
    let base = kept.len() as int;
    let behind = base + placed.len();
    lemma_middle_shape(input, n, pieces, stop, skip);
    lemma_landed_at(pieces, new, stop, skip, k);
    if k > 0 {
        lemma_landed_at(pieces, new, stop, skip, k - 1);
    }
    if k < base {
        assert(k > 0);
    } else if k == base {
        assert(new.source == n);
        assert(stop >= 0);
        assert(pieces[stop].start > input[pieces[stop].source].start);
        assert(stop > 0);
    } else if k < behind {
        let t = k - base;
        assert(all[k] == placed[t]);
        assert(all[k - 1] == placed[t - 1]);
    } else if k < behind + cut.len() {
        assert(all[k - 1] == placed[placed.len() - 1]);
    } else {
        let at = skip + k - behind - cut.len();
        assert(all[k] == pieces[at]);
        assert(at > 0 && pieces[at - 1].end == pieces[at].start);
        if at > skip {
            assert(all[k - 1] == pieces[at - 1]);
        } else if cut.len() > 0 {
            assert(all[k - 1] == cut[0]);
        } else {
            lemma_skip_seam(input, n, pieces, stop, skip);
            assert(all[k - 1] == placed[placed.len() - 1]);
        }
    }
}

/// One insertion more: with the merge of the first `n` items in the buffer
/// the insertion of the next item leaves the merge of the first `n + 1`
/// items.
#[verifier::rlimit(40)]
pub proof fn lemma_insert_resolves(input: Seq<Piece>, n: int, pieces: Seq<Piece>)
    requires
        indexed(input),
        well_shaped(input),
        ordered_input(input),
        0 <= n < input.len(),
        resolved(input, n, pieces),
    ensures
        resolved(input, n + 1, insert(pieces, input[n])),
{
    reveal(resolved);
    let new = input[n];
    assert forall|i: int| 0 <= i < pieces.len() implies (#[trigger] pieces[i]).start
        < pieces[i].end by {
        assert(part_of_winner(input, n, pieces[i]));
    }
    assert(pieces =~= pieces.subrange(0, pieces.len() as int) + rest_behind(
        pieces,
        new,
        pieces.len() - 1,
        pieces.len() as int,
    ));
    let (stop, skip) = lemma_visit_lands(pieces, new, pieces, pieces.len(), pieces.len() as int);
    let all = landed(pieces, new, stop, skip);
    lemma_landed_parts(input, n, pieces, stop, skip);
    lemma_landed_linked(input, n, pieces, stop, skip);
    assert forall|i: int| 0 <= i < all.len() implies (#[trigger] all[i]).start < all[i].end by {
        assert(part_of_winner(input, n + 1, all[i]));
    }
    lemma_linked_pieces_lie_apart(all);
    lemma_landed_covering(input, n, pieces, stop, skip);
    lemma_landed_seamed(input, n, pieces, stop, skip);
}

/// On an input in order the insertions give the merge of the items taken.
#[verifier::rlimit(40)]
pub proof fn lemma_resolve_resolves(input: Seq<Piece>, n: nat)
    requires
        indexed(input),
        well_shaped(input),
        ordered_input(input),
        n <= input.len(),
    ensures
        resolved(input, n as int, resolve(input, n)),
    decreases n,
{
    if n == 0 {
        reveal(resolved);
        reveal(covering);
    } else {
        let before = (n - 1) as nat;
        lemma_resolve_resolves(input, before);
        lemma_insert_resolves(input, before as int, resolve(input, before));
    }
}

/// From the coordinate `from` on the pieces stand without a gap, and their
/// priorities do not rise: a piece that starts behind `from` follows at once
/// on a piece of no lower priority.
pub open spec fn stepped(pieces: Seq<Piece>, from: int) -> bool {
    forall|k: int|
        0 <= k < pieces.len() && (#[trigger] pieces[k]).start > from ==> {
            &&& k > 0
            &&& pieces[k - 1].end == pieces[k].start
            &&& pieces[k - 1].priority >= pieces[k].priority
        }
}

/// The shape in which the merge keeps its buffer when `new` arrives: each
/// piece holds a coordinate, the pieces lie apart, and from the start of
/// `new` on they stand without a gap and with priorities that do not rise.
pub open spec fn staged(pieces: Seq<Piece>, new: Piece) -> bool {
    &&& well_shaped(pieces)
    &&& apart(pieces)
    &&& new.start < new.end
    &&& stepped(pieces, new.start)
}

/// `a` is a part of the item that `b` is a part of, with its priority.
pub open spec fn of_one_item(a: Piece, b: Piece) -> bool {
    a.source == b.source && a.priority == b.priority
}

/// Every piece of `pieces` that holds `x` has a lower priority than `new`.
pub open spec fn outranks(pieces: Seq<Piece>, new: Piece, x: int) -> bool {
    forall|j: int|
        0 <= j < pieces.len() && covers(#[trigger] pieces[j], x) ==> pieces[j].priority
            < new.priority
}

/// `piece` holds `x` by right: it is of `new` where `new` covers `x` and
/// outranks what held it, and of the piece that held `x` before everywhere
/// else.
pub open spec fn holds_by_right(before: Seq<Piece>, new: Piece, piece: Piece, x: int) -> bool {
    if covers(new, x) && outranks(before, new, x) {
        of_one_item(piece, new)
    } else {
        exists|j: int|
            0 <= j < before.len() && covers(#[trigger] before[j], x) && of_one_item(
                piece,
                before[j],
            )
    }
}

/// `piece` lies within `new` and is of it, or lies within a piece of
/// `before` and is of that.
pub open spec fn cut_from(before: Seq<Piece>, new: Piece, piece: Piece) -> bool {
    ||| of_one_item(piece, new) && new.start <= piece.start && piece.end <= new.end
    ||| exists|j: int|
        0 <= j < before.len() && of_one_item(piece, #[trigger] before[j]) && before[j].start
            <= piece.start && piece.end <= before[j].end
}

/// `after` is `before` with `new` laid over it: the pieces again have the
/// shape that the merge keeps, every coordinate that `new` or a piece of
/// `before` covers is held, each by right, and every piece is cut from
/// `new` or from a piece of `before`.
pub open spec fn laid_over(before: Seq<Piece>, new: Piece, after: Seq<Piece>) -> bool {
    &&& staged(after, new)
    &&& forall|x: int|
        covers(new, x) || some_covers(before, x) ==> #[trigger] some_covers(after, x)
    &&& forall|x: int, k: int|
        0 <= k < after.len() && #[trigger] covers(after[k], x) ==> holds_by_right(
            before,
            new,
            after[k],
            x,
        )
    &&& forall|k: int| 0 <= k < after.len() ==> cut_from(before, new, #[trigger] after[k])
}

/// The setting of one insertion, seen from the buffer alone.
spec fn laying(pieces: Seq<Piece>, new: Piece, stop: int, skip: int) -> bool {
    &&& well_shaped(pieces)
    &&& linked(pieces)
    &&& new.start < new.end
    &&& stepped(pieces, new.start)
    &&& stops_at(pieces, new, stop, skip)
}

/// Behind `from` the priorities of stepped pieces do not rise.
#[verifier::rlimit(40)]
proof fn lemma_step_priority(pieces: Seq<Piece>, from: int, k: int, s: int)
    requires
        well_shaped(pieces),
        linked(pieces),
        stepped(pieces, from),
        0 <= k <= s < pieces.len(),
        pieces[k].end > from,
    ensures
        pieces[k].priority >= pieces[s].priority,
    decreases s - k,
{
    if k < s {
        let m = k + 1;
        lemma_linked_reach(pieces, k, m);
        assert(pieces[m].start < pieces[m].end);
        assert(pieces[m - 1].priority >= pieces[m].priority);
        lemma_step_priority(pieces, from, m, s);
    }
}

/// From `from` up to the end of a stepped piece every coordinate is held.
#[verifier::rlimit(40)]
proof fn lemma_step_cover(pieces: Seq<Piece>, from: int, s: int, x: int) -> (k: int)
    requires
        stepped(pieces, from),
        0 <= s < pieces.len(),
        from <= x < pieces[s].end,
    ensures
        0 <= k <= s,
        covers(pieces[k], x),
    decreases s,
{
    if pieces[s].start <= x {
        s
    } else {
        assert(pieces[s - 1].end == pieces[s].start);
        lemma_step_cover(pieces, from, s - 1, x)
    }
}

/// How the pieces placed at `stop` follow on each other and on what stands
/// around them.
#[verifier::rlimit(40)]
proof fn lemma_laid_shape(pieces: Seq<Piece>, new: Piece, stop: int, skip: int)
    requires
        laying(pieces, new, stop, skip),
    ensures
        ({
            let placed = middle(pieces, new, stop);
            let cut = cut_behind(pieces, new, stop, skip);
            let rest = rest_behind(pieces, new, stop, skip);
            &&& 1 <= placed.len() <= 3
            &&& forall|t: int|
                0 <= t < placed.len() ==> (#[trigger] placed[t]).start < placed[t].end
            &&& forall|t: int| 0 <= t < placed.len() ==> cut_from(pieces, new, #[trigger] placed[t])
            &&& stop < 0 ==> placed[0] == new
            &&& stop >= 0 ==> placed[0].start == pieces[stop].start
            &&& forall|t: int|
                1 <= t < placed.len() ==> (#[trigger] placed[t - 1]).end <= placed[t].start
            &&& forall|t: int|
                1 <= t < placed.len() && (#[trigger] placed[t]).start > new.start ==> {
                    &&& placed[t - 1].end == placed[t].start
                    &&& placed[t - 1].priority >= placed[t].priority
                }
            &&& rest.len() > 0 ==> placed[placed.len() - 1].end <= rest[0].start
            &&& cut.len() > 0 ==> {
                &&& placed[placed.len() - 1].end == new.end
                &&& placed[placed.len() - 1].priority >= new.priority
                &&& cut[0].start == new.end
                &&& cut[0].start < cut[0].end
                &&& cut[0].priority < new.priority
            }
        }),
{
    let placed = middle(pieces, new, stop);
    let cut = cut_behind(pieces, new, stop, skip);
    let rest = rest_behind(pieces, new, stop, skip);
    if stop >= 0 {
        let existing = pieces[stop];
        assert(existing.start < existing.end);
        if stop + 1 < pieces.len() {
            lemma_linked_reach(pieces, stop, stop + 1);
        }
        assert(of_one_item(existing, pieces[stop]));
        assert(of_one_item(Piece { end: new.start, ..existing }, pieces[stop]));
        assert(of_one_item(Piece { start: new.end, cloned: true, ..existing }, pieces[stop]));
    }
    if cut.len() > 0 {
        assert(pieces[skip - 1].start < pieces[skip - 1].end);
        assert(rest[0] == cut[0]);
    } else if rest.len() > 0 {
        assert(rest[0] == pieces[skip]);
        if stop + 1 < skip {
            assert(pieces[skip - 1].end <= new.end);
            lemma_linked_reach(pieces, skip - 1, skip);
        }
    }
}

/// The first entry wholly behind the new item follows at once on what
/// stands before it after the insertion, of no lower priority.
#[verifier::rlimit(40)]
proof fn lemma_skip_step(pieces: Seq<Piece>, new: Piece, stop: int, skip: int)
    requires
        laying(pieces, new, stop, skip),
        cut_behind(pieces, new, stop, skip).len() == 0,
        skip < pieces.len(),
    ensures
        ({
            let placed = middle(pieces, new, stop);
            &&& placed[placed.len() - 1].end == pieces[skip].start
            &&& placed[placed.len() - 1].priority >= pieces[skip].priority
        }),
{
    let placed = middle(pieces, new, stop);
    let before = pieces[skip - 1];
    assert(pieces[skip].start >= new.end);
    assert(skip > 0 && before.end == pieces[skip].start && before.priority
        >= pieces[skip].priority);
    if stop + 1 < skip {
        assert(before.end <= new.end);
        assert(before.priority < new.priority);
        if stop >= 0 {
            let next = pieces[stop + 1];
            lemma_linked_reach(pieces, stop, stop + 1);
            assert(next.start < new.end);
        }
        assert(placed[placed.len() - 1].end == new.end);
        assert(placed[placed.len() - 1].priority >= new.priority);
    } else {
        assert(stop == skip - 1);
        assert(before.start < before.end);
    }
}

/// The piece at `k` of what the insertion leaves holds a coordinate, is cut
/// from the new item or from an entry, ends where the next one starts or
/// before, and keeps the steps.
#[verifier::rlimit(40)]
proof fn lemma_laid_at(pieces: Seq<Piece>, new: Piece, stop: int, skip: int, k: int)
    requires
        laying(pieces, new, stop, skip),
        0 <= k < landed(pieces, new, stop, skip).len(),
    ensures
        ({
            let all = landed(pieces, new, stop, skip);
            &&& all[k].start < all[k].end
            &&& cut_from(pieces, new, all[k])
            &&& k + 1 < all.len() ==> all[k].end <= all[k + 1].start
            &&& all[k].start > new.start ==> {
                &&& k > 0
                &&& all[k - 1].end == all[k].start
                &&& all[k - 1].priority >= all[k].priority
            }
        }),
{
    let kept = head(pieces, stop);
    let placed = middle(pieces, new, stop);
    let cut = cut_behind(pieces, new, stop, skip);
    let rest = rest_behind(pieces, new, stop, skip);
    let all = landed(pieces, new, stop, skip);
    let base = kept.len() as int;
    let behind = base + placed.len();
    lemma_laid_shape(pieces, new, stop, skip);
    lemma_landed_at(pieces, new, stop, skip, k);
    if k > 0 {
        lemma_landed_at(pieces, new, stop, skip, k - 1);
    }
    if k + 1 < all.len() {
        lemma_landed_at(pieces, new, stop, skip, k + 1);
    }
    if k < base {
        assert(of_one_item(all[k], pieces[k]));
        lemma_linked_reach(pieces, k, k + 1);
        if k + 1 == base {
            assert(all[k + 1] == placed[0]);
        }
    } else if k < behind {
        let t = k - base;
        assert(all[k] == placed[t]);
        if t + 1 < placed.len() {
            assert(placed[t + 1 - 1].end <= placed[t + 1].start);
        } else if k + 1 < all.len() {
            assert(all[k + 1] == rest[0]);
        }
        if t > 0 {
            assert(all[k - 1] == placed[t - 1]);
        } else if stop > 0 {
            assert(all[k - 1] == pieces[stop - 1]);
        }
    } else if k < behind + cut.len() {
        assert(all[k] == cut[0]);
        assert(of_one_item(cut[0], pieces[skip - 1]));
        assert(all[k - 1] == placed[placed.len() - 1]);
        if k + 1 < all.len() {
            assert(all[k + 1] == pieces[skip]);
            lemma_linked_reach(pieces, skip - 1, skip);
        }
    } else {
        let at = skip + k - behind - cut.len();
        assert(all[k] == pieces[at]);
        assert(of_one_item(all[k], pieces[at]));
        assert(pieces[at].start >= new.end);
        assert(at > 0 && pieces[at - 1].end == pieces[at].start);
        if k + 1 < all.len() {
            assert(all[k + 1] == pieces[at + 1]);
            lemma_linked_reach(pieces, at, at + 1);
        }
        if at > skip {
            assert(all[k - 1] == pieces[at - 1]);
        } else if cut.len() > 0 {
            assert(all[k - 1] == cut[0]);
        } else {
            lemma_skip_step(pieces, new, stop, skip);
            assert(all[k - 1] == placed[placed.len() - 1]);
        }
    }
}

/// An entry that holds a coordinate of the new item and is not behind
/// `stop` has at least the priority of the new item.
#[verifier::rlimit(40)]
proof fn lemma_laid_outranked(pieces: Seq<Piece>, new: Piece, stop: int, skip: int, j: int, x: int)
    requires
        laying(pieces, new, stop, skip),
        0 <= j < pieces.len(),
        covers(pieces[j], x),
        covers(new, x),
    ensures
        j <= stop && (j < stop || pieces[stop].priority >= new.priority) ==> pieces[j].priority
            >= new.priority,
        j < stop ==> pieces[stop].priority >= new.priority,
        j < skip,
        stop < j ==> pieces[j].priority < new.priority,
{
    if j < stop {
        lemma_linked_reach(pieces, j, stop);
        assert(pieces[stop].start < pieces[stop].end);
        lemma_step_priority(pieces, new.start, j, stop);
    }
}

/// A piece of what the insertion leaves holds each of its coordinates by
/// right.
#[verifier::rlimit(40)]
proof fn lemma_laid_holds(pieces: Seq<Piece>, new: Piece, stop: int, skip: int, k: int, x: int)
    requires
        laying(pieces, new, stop, skip),
        0 <= k < landed(pieces, new, stop, skip).len(),
        covers(landed(pieces, new, stop, skip)[k], x),
    ensures
        holds_by_right(pieces, new, landed(pieces, new, stop, skip)[k], x),
{
    let kept = head(pieces, stop);
    let placed = middle(pieces, new, stop);
    let cut = cut_behind(pieces, new, stop, skip);
    let all = landed(pieces, new, stop, skip);
    let base = kept.len() as int;
    let behind = base + placed.len();
    let piece = all[k];
    lemma_landed_at(pieces, new, stop, skip, k);
    // The entry that the piece is a part of, or -1 for the new item.
    let from: int = if k < base {
        k
    } else if k < behind {
        if stop < 0 || k - base == 1 {
            -1
        } else {
            stop
        }
    } else if k < behind + cut.len() {
        skip - 1
    } else {
        skip + k - behind - cut.len()
    };
    if stop >= 0 {
        assert(pieces[stop].start < pieces[stop].end);
    }
    if base <= k < behind {
        assert(piece == placed[k - base]);
    }
    if from >= 0 {
        assert(covers(pieces[from], x) && of_one_item(piece, pieces[from]));
        if covers(new, x) {
            lemma_laid_outranked(pieces, new, stop, skip, from, x);
            if from == stop {
                assert(pieces[stop].priority >= new.priority);
            }
            assert(pieces[from].priority >= new.priority);
            assert(!outranks(pieces, new, x));
        }
    } else {
        assert(of_one_item(piece, new));
        assert(covers(new, x));
        assert forall|j: int| 0 <= j < pieces.len() && covers(
            #[trigger] pieces[j],
            x,
        ) implies pieces[j].priority < new.priority by {
            lemma_laid_outranked(pieces, new, stop, skip, j, x);
            if j < stop {
                lemma_linked_reach(pieces, j, stop);
            }
        }
    }
}

/// A coordinate that the new item or an entry covers is held after the
/// insertion.
#[verifier::rlimit(40)]
proof fn lemma_laid_cover(pieces: Seq<Piece>, new: Piece, stop: int, skip: int, x: int)
    requires
        laying(pieces, new, stop, skip),
        covers(new, x) || some_covers(pieces, x),
    ensures
        some_covers(landed(pieces, new, stop, skip), x),
{
    let kept = head(pieces, stop);
    let placed = middle(pieces, new, stop);
    let cut = cut_behind(pieces, new, stop, skip);
    let all = landed(pieces, new, stop, skip);
    let base = kept.len() as int;
    let behind = base + placed.len();
    // The entry that holds `x`, or -1 where only the new item brings it.
    let held: int = if some_covers(pieces, x) {
        choose|j: int| 0 <= j < pieces.len() && #[trigger] covers(pieces[j], x)
    } else if stop >= 0 && new.start < pieces[stop].end && x < pieces[stop].end {
        lemma_step_cover(pieces, new.start, stop, x)
    } else {
        -1
    };
    if stop >= 0 {
        assert(pieces[stop].start < pieces[stop].end);
    }
    if held >= 0 {
        assert(pieces[held].start < pieces[held].end);
    }
    if 0 <= held < stop {
        lemma_landed_at(pieces, new, stop, skip, held);
        assert(covers(all[held], x));
    } else if held >= skip {
        let k = behind + cut.len() + held - skip;
        lemma_landed_at(pieces, new, stop, skip, k);
        assert(covers(all[k], x));
    } else if held > stop && x >= new.end {
        assert(held == skip - 1);
        lemma_landed_at(pieces, new, stop, skip, behind);
        assert(covers(all[behind], x));
    } else {
        if held > stop && stop >= 0 {
            lemma_linked_reach(pieces, stop, held);
        }
        lemma_landed_at(pieces, new, stop, skip, base);
        if placed.len() > 1 {
            lemma_landed_at(pieces, new, stop, skip, base + 1);
        }
        if placed.len() > 2 {
            lemma_landed_at(pieces, new, stop, skip, base + 2);
        }
        if stop < 0 {
            assert(covers(all[base], x));
        } else {
            let existing = pieces[stop];
            if existing.end <= new.start {
                assert(covers(all[base], x) || covers(all[base + 1], x));
            } else if existing.priority >= new.priority {
                if existing.end < new.end {
                    assert(covers(all[base], x) || covers(all[base + 1], x));
                } else {
                    assert(covers(all[base], x));
                }
            } else if new.end < existing.end {
                assert(covers(all[base], x) || covers(all[base + 1], x) || covers(
                    all[base + 2],
                    x,
                ));
            } else {
                assert(covers(all[base], x) || covers(all[base + 1], x));
            }
        }
    }
}

/// What the insertion leaves has the shape that the merge keeps.
#[verifier::rlimit(40)]
proof fn lemma_landed_staged(pieces: Seq<Piece>, new: Piece, stop: int, skip: int)
    requires
        laying(pieces, new, stop, skip),
    ensures
        staged(landed(pieces, new, stop, skip), new),
{
    reveal(linked);
    let all = landed(pieces, new, stop, skip);
    assert forall|k: int| 0 <= k < all.len() implies (#[trigger] all[k]).start < all[k].end by {
        lemma_laid_at(pieces, new, stop, skip, k);
    }
    assert forall|k: int| 0 <= k < all.len() - 1 implies (#[trigger] all[k]).end <= all[k
        + 1].start by {
        lemma_laid_at(pieces, new, stop, skip, k);
    }
    lemma_linked_pieces_lie_apart(all);
    assert forall|k: int| 0 <= k < all.len() && (#[trigger] all[k]).start > new.start implies {
        &&& k > 0
        &&& all[k - 1].end == all[k].start
        &&& all[k - 1].priority >= all[k].priority
    } by {
        lemma_laid_at(pieces, new, stop, skip, k);
    }
}

/// What the insertion leaves holds every coordinate by right, and is cut
/// from the new item and the entries.
#[verifier::rlimit(40)]
proof fn lemma_landed_rights(pieces: Seq<Piece>, new: Piece, stop: int, skip: int)
    requires
        laying(pieces, new, stop, skip),
    ensures
        forall|x: int|
            covers(new, x) || some_covers(pieces, x) ==> #[trigger] some_covers(
                landed(pieces, new, stop, skip),
                x,
            ),
        forall|x: int, k: int|
            0 <= k < landed(pieces, new, stop, skip).len() && #[trigger] covers(
                landed(pieces, new, stop, skip)[k],
                x,
            ) ==> holds_by_right(pieces, new, landed(pieces, new, stop, skip)[k], x),
        forall|k: int|
            0 <= k < landed(pieces, new, stop, skip).len() ==> cut_from(
                pieces,
                new,
                #[trigger] landed(pieces, new, stop, skip)[k],
            ),
{
    let all = landed(pieces, new, stop, skip);
    assert forall|x: int| covers(new, x) || some_covers(pieces, x) implies #[trigger] some_covers(
        all,
        x,
    ) by {
        lemma_laid_cover(pieces, new, stop, skip, x);
    }
    assert forall|x: int, k: int| 0 <= k < all.len() && #[trigger] covers(
        all[k],
        x,
    ) implies holds_by_right(pieces, new, all[k], x) by {
        lemma_laid_holds(pieces, new, stop, skip, k, x);
    }
    assert forall|k: int| 0 <= k < all.len() implies cut_from(pieces, new, #[trigger] all[k]) by {
        lemma_laid_at(pieces, new, stop, skip, k);
    }
}

/// An insertion into a buffer of the shape that the merge keeps lays the new
/// item over it: the shape is kept, the new item holds the coordinates that
/// it covers where nothing of at least its priority stood, and everything
/// else is held as before.
#[verifier::rlimit(40)]
pub proof fn lemma_insert_lays_over(pieces: Seq<Piece>, new: Piece)
    requires
        staged(pieces, new),
    ensures
        laid_over(pieces, new, insert(pieces, new)),
{
    assert(pieces =~= pieces.subrange(0, pieces.len() as int) + rest_behind(
        pieces,
        new,
        pieces.len() - 1,
        pieces.len() as int,
    ));
    let (stop, skip) = lemma_visit_lands(pieces, new, pieces, pieces.len(), pieces.len() as int);
    assert(linked(pieces)) by {
        reveal(linked);
    }
    lemma_landed_staged(pieces, new, stop, skip);
    lemma_landed_rights(pieces, new, stop, skip);
}

/// Pieces that end at or before the start of the new item, and stand
/// before the buffer, play no part in an insertion.
#[verifier::rlimit(40)]
pub proof fn lemma_insert_skips_given(given: Seq<Piece>, buffer: Seq<Piece>, new: Piece, idx: nat)
    requires
        idx <= buffer.len(),
        given.len() > 0 ==> given[given.len() - 1].end <= new.start,
    ensures
        insert_from(given + buffer, new, given.len() + idx) == given + insert_from(
            buffer,
            new,
            idx,
        ),
    decreases idx,
{
    let whole = given + buffer;
    let base = given.len();
    if idx == 0 {
        if base == 0 {
            assert(seq![new] + whole =~= given + (seq![new] + buffer));
        } else {
            assert(whole[base - 1] == given[base - 1]);
            assert(whole.insert(base as int, new) =~= given + (seq![new] + buffer));
        }
    } else {
        let i = idx - 1;
        let at = base + i;
        let existing = buffer[i];
        assert(whole[at] == existing);
        let before = Piece { end: new.start, ..existing };
        let after = Piece { start: new.end, ..existing };
        if existing.end <= new.start {
            assert(whole.insert(at + 1, new) =~= given + buffer.insert(idx as int, new));
        } else if existing.start >= new.end {
            lemma_insert_skips_given(given, buffer, new, i as nat);
        } else if existing.priority >= new.priority {
            if existing.end < new.end {
                let cut = Piece { start: existing.end, ..new };
                assert(whole.insert(at + 1, cut) =~= given + buffer.insert(idx as int, cut));
            }
        } else if existing.start < new.start && new.end < existing.end {
            let split = Piece { cloned: true, ..after };
            assert(whole.update(at, before).insert(at + 1, new).insert(at + 2, split) =~= given
                + buffer.update(i, before).insert(idx as int, new).insert(idx as int + 1, split));
        } else if existing.start < new.start {
            assert(whole.update(at, before).insert(at + 1, new) =~= given + buffer.update(
                i,
                before,
            ).insert(idx as int, new));
        } else if new.end < existing.end {
            assert(whole.update(at, after) =~= given + buffer.update(i, after));
            lemma_insert_skips_given(given, buffer.update(i, after), new, i as nat);
        } else {
            assert(whole.remove(at) =~= given + buffer.remove(i));
            lemma_insert_skips_given(given, buffer.remove(i), new, i as nat);
        }
    }
}

/// The visit of an insertion does not go past a piece before which every
/// piece ends before the start of the new item.
#[verifier::rlimit(40)]
proof fn lemma_front_not_passed(
    input: Seq<Piece>,
    n: int,
    pieces: Seq<Piece>,
    stop: int,
    skip: int,
    front: int,
)
    requires
        insertion_setting(input, n, pieces, stop, skip),
        0 <= front < pieces.len(),
        front > 0 ==> pieces[front - 1].end < input[n].start,
    ensures
        front <= stop,
{
    reveal(resolved);
    if front > stop {
        let new = input[n];
        let held = pieces[front];
        assert(part_of_winner(input, n, held));
        assert(held.start >= new.start && held.priority < new.priority);
        let source = held.source;
        assert(input[source].start <= new.start);
        if held.start > input[source].start {
            assert(front > 0 && pieces[front - 1].end == held.start);
        } else {
            assert(input[source].start == new.start);
            assert(input[source].priority >= new.priority);
        }
    }
}

/// The piece at the front of the buffer keeps its place in an insertion, and
/// its end does not move up: the pieces before it end before the start of
/// the new item.
#[verifier::rlimit(40)]
proof fn lemma_front_stays(input: Seq<Piece>, n: int, pieces: Seq<Piece>, stop: int, skip: int, front: int)
    requires
        insertion_setting(input, n, pieces, stop, skip),
        0 <= front < pieces.len(),
        front > 0 ==> pieces[front - 1].end < input[n].start,
    ensures
        front < landed(pieces, input[n], stop, skip).len(),
        landed(pieces, input[n], stop, skip)[front].end <= pieces[front].end,
{
    let new = input[n];
    let kept = head(pieces, stop);
    let placed = middle(pieces, new, stop);
    let all = landed(pieces, new, stop, skip);
    lemma_front_not_passed(input, n, pieces, stop, skip, front);
    if front < stop {
        assert(all[front] == pieces[front]);
    } else {
        assert(all[front] == placed[0]);
    }
}

/// The front condition of a pull: with an end to wait for there is a piece
/// at the front that ends no later, and without one the buffer is empty.
spec fn front_within(buffer: Seq<Piece>, first_end: Option<int>) -> bool {
    match first_end {
        Some(end) => buffer.len() > 0 && buffer[0].end <= end,
        None => buffer.len() == 0,
    }
}

/// The merge of the first `n` items rests on these items alone.
pub proof fn lemma_resolve_of_prefix(a: Seq<Piece>, b: Seq<Piece>, n: nat)
    requires
        n <= a.len(),
        n <= b.len(),
        forall|i: int| 0 <= i < n ==> a[i] == b[i],
    ensures
        resolve(a, n) == resolve(b, n),
    decreases n,
{
    if n > 0 {
        lemma_resolve_of_prefix(a, b, (n - 1) as nat);
    }
}

/// What is asked of the input of a merge: every item carries its place and
/// holds a coordinate, and the items are in the order of their keys.
pub open spec fn mergeable(input: Seq<Piece>) -> bool {
    &&& indexed(input)
    &&& well_shaped(input)
    &&& ordered_input(input)
}

/// What `resolved` says of the shape of the pieces.
proof fn lemma_resolved_shape(input: Seq<Piece>, n: int, pieces: Seq<Piece>)
    requires
        resolved(input, n, pieces),
    ensures
        well_shaped(pieces),
        apart(pieces),
        seamed(input, pieces),
        forall|k: int| 0 <= k < pieces.len() ==> part_of(input, n, #[trigger] pieces[k]),
{
    reveal(resolved);
    assert forall|k: int| 0 <= k < pieces.len() implies part_of(input, n, #[trigger] pieces[k])
        && pieces[k].start < pieces[k].end by {
        assert(part_of_winner(input, n, pieces[k]));
    }
}

/// After an insertion there is a piece at the front of the buffer again,
/// and it ends no later than the one before did: the pieces given end
/// before the start of the new item.
#[verifier::rlimit(40)]
proof fn lemma_front_after_insert(
    input: Seq<Piece>,
    n: int,
    given: Seq<Piece>,
    buffer: Seq<Piece>,
)
    requires
        mergeable(input),
        0 <= n < input.len(),
        given + buffer == resolve(input, n as nat),
        buffer.len() > 0,
        given.len() > 0 ==> given[given.len() - 1].end < input[n].start,
    ensures
        insert(buffer, input[n]).len() > 0,
        insert(buffer, input[n])[0].end <= buffer[0].end,
{
    let item = input[n];
    let grown = insert(buffer, item);
    let whole = given + buffer;
    lemma_insert_skips_given(given, buffer, item, buffer.len());
    lemma_resolve_resolves(input, n as nat);
    lemma_resolved_shape(input, n, whole);
    assert(whole =~= whole.subrange(0, whole.len() as int) + rest_behind(
        whole,
        item,
        whole.len() - 1,
        whole.len() as int,
    ));
    let (stop, skip) = lemma_visit_lands(whole, item, whole, whole.len(), whole.len() as int);
    let front = given.len() as int;
    if front > 0 {
        assert(whole[front - 1] == given[front - 1]);
    }
    lemma_front_stays(input, n, whole, stop, skip, front);
    assert(whole[front] == buffer[0]);
    assert((given + grown).len() > front);
    assert((given + grown)[front] == grown[0]);
}

/// A pull leaves, behind the pieces given so far, the merge of the items
/// taken; and where it ends before the input does, the piece at the front
/// ends before the start of the item taken last.
#[verifier::rlimit(40)]
proof fn lemma_pull_tracks(
    input: Seq<Piece>,
    given: Seq<Piece>,
    buffer: Seq<Piece>,
    consumed: nat,
    first_end: Option<int>,
)
    requires
        mergeable(input),
        consumed <= input.len(),
        given + buffer == resolve(input, consumed),
        front_within(buffer, first_end),
        given.len() > 0 && consumed < input.len() ==> given[given.len() - 1].end
            < input[consumed as int].start,
    ensures
        ({
            let (grown, taken) = pull(input, buffer, consumed, first_end);
            &&& consumed <= taken <= input.len()
            &&& given + grown == resolve(input, taken)
            &&& taken < input.len() ==> consumed < taken && grown.len() > 0 && grown[0].end
                < input[taken - 1].start
        }),
    decreases input.len() - consumed,
{
    if consumed < input.len() {
        let n = consumed as int;
        let item = input[n];
        let grown = insert(buffer, item);
        let end = match first_end {
            Some(end) => end,
            None => item.end,
        };
        lemma_insert_skips_given(given, buffer, item, buffer.len());
        assert(resolve(input, consumed + 1) == insert(resolve(input, consumed), item));
        assert(given + grown == resolve(input, consumed + 1));
        if buffer.len() > 0 {
            lemma_front_after_insert(input, n, given, buffer);
        } else {
            assert(grown =~= seq![item]);
        }
        assert(front_within(grown, Some(end)));
        if !(end < item.start) {
            if consumed + 1 < input.len() {
                assert(input[n].start <= input[n + 1].start);
            }
            lemma_pull_tracks(input, given, grown, consumed + 1, Some(end));
        }
    }
}

/// The state of a merge goes with the pieces given so far: behind them the
/// buffer holds the rest of the merge of the items taken, the horizon is the
/// start of the item taken last, and while items are left the piece given
/// last ends before the horizon.
pub open spec fn tracks(input: Seq<Piece>, given: Seq<Piece>, state: MergeState) -> bool {
    &&& state.consumed <= input.len()
    &&& given + state.buffer == resolve(input, state.consumed)
    &&& state.consumed > 0 ==> state.horizon == input[state.consumed - 1].start
    &&& state.consumed == 0 ==> state.buffer.len() == 0 && given.len() == 0
    &&& given.len() > 0 && state.consumed < input.len() ==> given[given.len() - 1].end
        < state.horizon
}

/// A result keeps the state with the pieces given: the piece that is given
/// joins them, and with no result the pieces given are the whole merge.
#[verifier::rlimit(40)]
proof fn lemma_step_keeps_track(input: Seq<Piece>, given: Seq<Piece>, state: MergeState)
    requires
        mergeable(input),
        tracks(input, given, state),
    ensures
        match step(input, state).1 {
            Some(piece) => tracks(input, given.push(piece), step(input, state).0),
            None => tracks(input, given, step(input, state).0) && given == resolve(
                input,
                input.len(),
            ),
        },
{
    let (next, out) = step(input, state);
    if state.consumed > 0 && state.consumed < input.len() {
        assert(input[state.consumed - 1].start <= input[state.consumed as int].start);
    }
    if state.buffer.len() > 0 && state.buffer[0].end < state.horizon {
        let piece = state.buffer[0];
        let more = given.push(piece);
        assert(more + next.buffer =~= given + state.buffer);
    } else {
        let first_end = if state.buffer.len() > 0 {
            Some(state.buffer[0].end)
        } else {
            None
        };
        lemma_pull_tracks(input, given, state.buffer, state.consumed, first_end);
        lemma_pull_bounds(input, state.buffer, state.consumed, first_end);
        let (grown, taken) = pull(input, state.buffer, state.consumed, first_end);
        if grown.len() > 0 {
            let piece = grown[0];
            let more = given.push(piece);
            assert(more + next.buffer =~= given + grown);
        } else {
            assert(given + grown =~= given);
        }
    }
}

/// From a state that goes with the pieces given so far, the merge gives the
/// rest of the merge of the whole input.
#[verifier::rlimit(40)]
proof fn lemma_outputs_track(input: Seq<Piece>, given: Seq<Piece>, state: MergeState)
    requires
        mergeable(input),
        tracks(input, given, state),
    ensures
        given + outputs_from(input, state) == resolve(input, input.len()),
    decreases weight(input, state),
{
    let (next, out) = step(input, state);
    lemma_step_lightens(input, state);
    lemma_step_keeps_track(input, given, state);
    match out {
        Some(piece) => {
            let more = given.push(piece);
            lemma_outputs_track(input, more, next);
            assert(given + (seq![piece] + outputs_from(input, next)) =~= more + outputs_from(
                input,
                next,
            ));
        },
        None => {
            assert(given + Seq::<Piece>::empty() =~= given);
        },
    }
}

/// The merge of `input`: what the insertions of all its items, one after the
/// other, leave.
pub open spec fn merged(input: Seq<Piece>) -> Seq<Piece> {
    resolve(input, input.len())
}

/// A result of the merge is the next piece of the merge of the input, and
/// there is no result when all its pieces have been given.
#[verifier::rlimit(40)]
pub proof fn lemma_step_gives_the_next(input: Seq<Piece>, given: Seq<Piece>, state: MergeState)
    requires
        mergeable(input),
        tracks(input, given, state),
    ensures
        given.len() <= merged(input).len(),
        given == merged(input).subrange(0, given.len() as int),
        match step(input, state).1 {
            Some(piece) => {
                &&& given.len() < merged(input).len()
                &&& piece == merged(input)[given.len() as int]
                &&& tracks(input, given.push(piece), step(input, state).0)
            },
            None => given.len() == merged(input).len() && tracks(
                input,
                given,
                step(input, state).0,
            ),
        },
{
    lemma_step_keeps_track(input, given, state);
    lemma_outputs_track(input, given, state);
    assert(given =~= merged(input).subrange(0, given.len() as int));
    match step(input, state).1 {
        Some(piece) => {
            assert((given + outputs_from(input, state))[given.len() as int] == piece);
        },
        None => {},
    }
}

/// On a mergeable input the merge gives what the insertions of all its
/// items, one after the other, leave in the buffer.
pub proof fn lemma_outputs_are_the_insertions(input: Seq<Piece>)
    requires
        mergeable(input),
    ensures
        outputs(input) == merged(input),
{
    let given = Seq::<Piece>::empty();
    assert(given + initial_state().buffer =~= resolve(input, 0));
    lemma_outputs_track(input, given, initial_state());
    assert(given + outputs(input) =~= outputs(input));
}

/// Items whose keys never descend give an input in order, and one of
/// well-shaped pieces where each item holds a coordinate.
pub proof fn lemma_pieces_of_sorted_items<TMeta>(items: Seq<OrderedRangeItem<usize, TMeta>>)
    requires
        sorted_by_key(items),
    ensures
        indexed(pieces_of(items)),
        ordered_input(pieces_of(items)),
        (forall|i: int| 0 <= i < items.len() ==> (#[trigger] items[i]).range.holds_coordinate())
            ==> well_shaped(pieces_of(items)),
{
    let input = pieces_of(items);
    assert forall|i: int, j: int| 0 <= i <= j < input.len() implies {
        ||| (#[trigger] input[i]).start < (#[trigger] input[j]).start
        ||| input[i].start == input[j].start && input[i].priority >= input[j].priority
    } by {
        let a = items[i].key();
        let b = items[j].key();
        assert(a.0 < b.0 || (a.0 == b.0 && a.1 <= b.1));
    }
    if forall|i: int| 0 <= i < items.len() ==> (#[trigger] items[i]).range.holds_coordinate() {
        assert forall|i: int| 0 <= i < input.len() implies (#[trigger] input[i]).start
            < input[i].end by {
            assert(items[i].range.holds_coordinate());
        }
    }
}

/// The pieces of the merge each hold a coordinate and lie apart, in the
/// order of their starts.
pub proof fn merged_pieces_lie_apart(input: Seq<Piece>)
    requires
        mergeable(input),
    ensures
        well_shaped(merged(input)),
        apart(merged(input)),
        forall|i: int, j: int|
            0 <= i < j < merged(input).len() ==> (#[trigger] merged(input)[i]).start < (
            #[trigger] merged(input)[j]).start,
{
    lemma_resolve_resolves(input, input.len());
    lemma_resolved_shape(input, input.len() as int, merged(input));
}

/// The pieces of the merge cover the coordinates that the items of the
/// input cover, and no others.
pub proof fn merged_pieces_cover_the_input(input: Seq<Piece>)
    requires
        mergeable(input),
    ensures
        forall|x: int| #[trigger] some_covers(input, x) <==> some_covers(merged(input), x),
{
    lemma_resolve_resolves(input, input.len());
    lemma_resolved_shape(input, input.len() as int, merged(input));
    reveal(resolved);
    reveal(covering);
    let pieces = merged(input);
    assert forall|x: int| #[trigger] some_covers(input, x) <==> some_covers(pieces, x) by {
        if some_covers(pieces, x) {
            let k = choose|k: int| 0 <= k < pieces.len() && #[trigger] covers(pieces[k], x);
            assert(part_of(input, input.len() as int, pieces[k]));
            assert(covers(input[pieces[k].source], x));
        }
        if some_covers(input, x) {
            let j = choose|j: int| 0 <= j < input.len() && #[trigger] covers(input[j], x);
            assert(covers(input[j], x));
        }
    }
}

/// Each piece of the merge is a part of an item of the input, with its
/// priority, and that item holds every coordinate of the piece against each
/// item that covers it: it has the higher priority, or the same and comes no
/// later in the input.
pub proof fn merged_pieces_belong_to_winners(input: Seq<Piece>)
    requires
        mergeable(input),
    ensures
        forall|k: int|
            0 <= k < merged(input).len() ==> part_of_winner(
                input,
                input.len() as int,
                #[trigger] merged(input)[k],
            ),
        forall|k: int, x: int, j: int|
            0 <= k < merged(input).len() && 0 <= j < input.len() && covers(
                #[trigger] merged(input)[k],
                x,
            ) && #[trigger] covers(input[j], x) ==> holds_against(input, merged(input)[k].source, j),
{
    lemma_resolve_resolves(input, input.len());
    reveal(resolved);
    reveal(wins);
    let pieces = merged(input);
    assert forall|k: int, x: int, j: int|
        0 <= k < pieces.len() && 0 <= j < input.len() && covers(#[trigger] pieces[k], x)
            && #[trigger] covers(input[j], x) implies holds_against(
        input,
        pieces[k].source,
        j,
    ) by {
        assert(part_of_winner(input, input.len() as int, pieces[k]));
    }
}

} // verus!
