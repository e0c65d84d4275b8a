//! The mathematical model of priority resolution: what a buffer of pieces
//! becomes when one more item is laid over it, and what the merge hands out.

use crate::range::OrderedRangeItem;
use vstd::prelude::*;

verus! {

/// What the merge reads of an item: its bounds, its priority, the place in
/// the input of the item that it is a part of, and whether it carries a
/// clone of the payload of that item, not the payload itself.
pub struct Piece {
    pub start: int,
    pub end: int,
    pub priority: int,
    pub source: int,
    pub cloned: bool,
}

/// `dst` is `src` or came from it by cloning, once or several times:
/// a chain of values leads from the one to the other, each the clone of the
/// one before it.
pub open spec fn descends<M: Clone>(src: M, dst: M) -> bool {
    exists|chain: Seq<M>| #[trigger] clone_chain(chain, src, dst)
}

/// `chain` starts at `src`, ends at `dst`, and each of its values is a clone
/// of the one before it.
pub open spec fn clone_chain<M: Clone>(chain: Seq<M>, src: M, dst: M) -> bool {
    &&& chain.len() > 0
    &&& chain[0] == src
    &&& chain[chain.len() - 1] == dst
    &&& forall|i: int| 0 <= i < chain.len() - 1 ==> cloned(#[trigger] chain[i], chain[i + 1])
}

pub proof fn lemma_descends_from_itself<M: Clone>(src: M)
    ensures
        descends(src, src),
{
    assert(clone_chain(seq![src], src, src));
}

pub proof fn lemma_descends_through_clone<M: Clone>(src: M, mid: M, dst: M)
    requires
        descends(src, mid),
        cloned(mid, dst),
    ensures
        descends(src, dst),
{
    let chain = choose|chain: Seq<M>| #[trigger] clone_chain(chain, src, mid);
    let longer = chain.push(dst);
    assert forall|i: int| 0 <= i < longer.len() - 1 implies cloned(
        #[trigger] longer[i],
        longer[i + 1],
    ) by {
        if i < chain.len() - 1 {
            assert(cloned(chain[i], chain[i + 1]));
        }
    }
    assert(clone_chain(longer, src, dst));
}

pub proof fn lemma_descends_transitive<M: Clone>(src: M, mid: M, dst: M)
    requires
        descends(src, mid),
        descends(mid, dst),
    ensures
        descends(src, dst),
{
    let first = choose|chain: Seq<M>| #[trigger] clone_chain(chain, src, mid);
    let second = choose|chain: Seq<M>| #[trigger] clone_chain(chain, mid, dst);
    let joined = first + second.subrange(1, second.len() as int);
    assert forall|i: int| 0 <= i < joined.len() - 1 implies cloned(
        #[trigger] joined[i],
        joined[i + 1],
    ) by {
        if i < first.len() - 1 {
            assert(cloned(first[i], first[i + 1]));
        } else if i == first.len() - 1 {
            assert(cloned(second[0], second[1]));
        } else {
            let at = i - first.len() + 1;
            assert(cloned(second[at], second[at + 1]));
        }
    }
    assert(clone_chain(joined, src, dst));
}

/// Where a clone of a payload is always equal to the payload, what descends
/// from a payload is equal to it.
pub proof fn lemma_descends_to_equal<M: Clone>(src: M, dst: M)
    requires
        descends(src, dst),
        forall|a: M, b: M| #[trigger] cloned(a, b) ==> a == b,
    ensures
        src == dst,
{
    let chain = choose|chain: Seq<M>| #[trigger] clone_chain(chain, src, dst);
    lemma_chain_of_equals(chain, chain.len() - 1);
}

proof fn lemma_chain_of_equals<M: Clone>(chain: Seq<M>, at: int)
    requires
        0 <= at < chain.len(),
        forall|i: int| 0 <= i < chain.len() - 1 ==> cloned(#[trigger] chain[i], chain[i + 1]),
        forall|a: M, b: M| #[trigger] cloned(a, b) ==> a == b,
    ensures
        chain[at] == chain[0],
    decreases at,
{
    if at > 0 {
        lemma_chain_of_equals(chain, at - 1);
        assert(cloned(chain[at - 1], chain[at]));
    }
}

/// The piece that stands for `item`, marked with the place `source`.
pub open spec fn piece_of<M>(item: OrderedRangeItem<usize, M>, source: int) -> Piece {
    Piece {
        start: item.range@.start as int,
        end: item.range@.end as int,
        priority: item.priority as int,
        source,
        cloned: false,
    }
}

/// The pieces that stand for `items`, each marked with its own place.
pub open spec fn pieces_of<M>(items: Seq<OrderedRangeItem<usize, M>>) -> Seq<Piece> {
    Seq::new(items.len(), |i: int| piece_of(items[i], i))
}

/// `item` has the bounds and the priority of `piece`, and its payload is that
/// of the item at the piece's source; where the piece is marked as cloned,
/// it came from that payload by cloning.
pub open spec fn realizes<M: Clone>(
    item: OrderedRangeItem<usize, M>,
    piece: Piece,
    origins: Seq<OrderedRangeItem<usize, M>>,
) -> bool {
    &&& item.range@.start == piece.start
    &&& item.range@.end == piece.end
    &&& item.priority == piece.priority
    &&& 0 <= piece.source < origins.len()
    &&& if piece.cloned {
        descends(origins[piece.source].meta, item.meta)
    } else {
        item.meta == origins[piece.source].meta
    }
}

/// `items` realize `pieces` one by one.
pub open spec fn realized<M: Clone>(
    items: Seq<OrderedRangeItem<usize, M>>,
    pieces: Seq<Piece>,
    origins: Seq<OrderedRangeItem<usize, M>>,
) -> bool {
    &&& items.len() == pieces.len()
    &&& forall|k: int| 0 <= k < items.len() ==> realizes(#[trigger] items[k], pieces[k], origins)
}

pub proof fn lemma_realized_insert<M: Clone>(
    items: Seq<OrderedRangeItem<usize, M>>,
    pieces: Seq<Piece>,
    origins: Seq<OrderedRangeItem<usize, M>>,
    at: int,
    item: OrderedRangeItem<usize, M>,
    piece: Piece,
)
    requires
        realized(items, pieces, origins),
        realizes(item, piece, origins),
        0 <= at <= items.len(),
    ensures
        realized(items.insert(at, item), pieces.insert(at, piece), origins),
{
    let items2 = items.insert(at, item);
    let pieces2 = pieces.insert(at, piece);
    assert forall|k: int| 0 <= k < items2.len() implies realizes(
        #[trigger] items2[k],
        pieces2[k],
        origins,
    ) by {
        if k < at {
            assert(items2[k] == items[k] && pieces2[k] == pieces[k]);
        } else if k > at {
            assert(items2[k] == items[k - 1] && pieces2[k] == pieces[k - 1]);
        }
    }
}

pub proof fn lemma_realized_remove<M: Clone>(
    items: Seq<OrderedRangeItem<usize, M>>,
    pieces: Seq<Piece>,
    origins: Seq<OrderedRangeItem<usize, M>>,
    at: int,
)
    requires
        realized(items, pieces, origins),
        0 <= at < items.len(),
    ensures
        realized(items.remove(at), pieces.remove(at), origins),
{
    let items2 = items.remove(at);
    let pieces2 = pieces.remove(at);
    assert forall|k: int| 0 <= k < items2.len() implies realizes(
        #[trigger] items2[k],
        pieces2[k],
        origins,
    ) by {
        if k < at {
            assert(items2[k] == items[k] && pieces2[k] == pieces[k]);
        } else {
            assert(items2[k] == items[k + 1] && pieces2[k] == pieces[k + 1]);
        }
    }
}

/// Lays `new` over `buf`, of which the entries from `idx` on have been dealt
/// with already. The entries are visited from the last one down:
/// - one that ends at or before the start of `new` stays, and `new` goes
///   right behind it;
/// - one that starts at or behind the end of `new` stays as it is, and the
///   visit goes on;
/// - one of at least the priority of `new` stays, and what `new` has beyond
///   its end goes right behind it;
/// - one of lower priority keeps what it has before the start of `new` and,
///   as a second piece with a clone of its payload, what it has beyond the
///   end of `new`. With something kept before, `new` goes right behind that
///   and the visit ends. With nothing kept before the visit goes on, and an
///   entry with nothing kept at all leaves the buffer.
/// With no entry left to visit `new` goes to the front.
pub open spec fn insert_from(buf: Seq<Piece>, new: Piece, idx: nat) -> Seq<Piece>
    decreases idx,
{
    if idx == 0 {
        seq![new] + buf
    } else {
        let i = idx - 1;
        let existing = buf[i];
        if existing.end <= new.start {
            buf.insert(idx as int, new)
        } else if existing.start >= new.end {
            insert_from(buf, new, i as nat)
        } else if existing.priority >= new.priority {
            if existing.end < new.end {
                buf.insert(idx as int, Piece { start: existing.end, ..new })
            } else {
                buf
            }
        } else {
            let before = Piece { end: new.start, ..existing };
            let after = Piece { start: new.end, ..existing };
            if existing.start < new.start && new.end < existing.end {
                buf.update(i, before).insert(idx as int, new).insert(
                    idx as int + 1,
                    Piece { cloned: true, ..after },
                )
            } else if existing.start < new.start {
                buf.update(i, before).insert(idx as int, new)
            } else if new.end < existing.end {
                insert_from(buf.update(i, after), new, i as nat)
            } else {
                insert_from(buf.remove(i), new, i as nat)
            }
        }
    }
}

/// Lays `new` over the whole of `buf`.
pub open spec fn insert(buf: Seq<Piece>, new: Piece) -> Seq<Piece> {
    insert_from(buf, new, buf.len())
}

/// `b` is `a` under other marks: the same bounds and priority, for its
/// source what `marks` holds at the source of `a`, and cloned where `a` is
/// or where `marks` say so.
pub open spec fn marked_as(a: Piece, b: Piece, marks: Seq<(int, bool)>) -> bool {
    &&& a.start == b.start
    &&& a.end == b.end
    &&& a.priority == b.priority
    &&& 0 <= a.source < marks.len()
    &&& b.source == marks[a.source].0
    &&& b.cloned == (a.cloned || marks[a.source].1)
}

/// The marks of the pieces play no part in an insertion: from two buffers
/// that differ in their marks alone come two buffers that differ in just
/// that way.
#[verifier::rlimit(40)]
pub proof fn lemma_insert_keeps_marks(
    a: Seq<Piece>,
    new_a: Piece,
    b: Seq<Piece>,
    new_b: Piece,
    marks: Seq<(int, bool)>,
    idx: nat,
)
    requires
        a.len() == b.len(),
        idx <= a.len(),
        marked_as(new_a, new_b, marks),
        forall|k: int| 0 <= k < a.len() ==> marked_as(#[trigger] a[k], b[k], marks),
    ensures
        insert_from(a, new_a, idx).len() == insert_from(b, new_b, idx).len(),
        forall|k: int|
            0 <= k < insert_from(a, new_a, idx).len() ==> marked_as(
                #[trigger] insert_from(a, new_a, idx)[k],
                insert_from(b, new_b, idx)[k],
                marks,
            ),
    decreases idx,
{
    if idx > 0 {
        let i = idx - 1;
        assert(marked_as(a[i], b[i], marks));
        let ea = a[i];
        let eb = b[i];
        if ea.end > new_a.start && ea.start >= new_a.end {
            lemma_insert_keeps_marks(a, new_a, b, new_b, marks, i as nat);
        } else if ea.end > new_a.start && ea.priority < new_a.priority && ea.start
            >= new_a.start {
            if new_a.end < ea.end {
                let a2 = a.update(i, Piece { start: new_a.end, ..ea });
                let b2 = b.update(i, Piece { start: new_b.end, ..eb });
                assert forall|k: int| 0 <= k < a2.len() implies marked_as(
                    #[trigger] a2[k],
                    b2[k],
                    marks,
                ) by {
                    if k != i {
                        assert(marked_as(a[k], b[k], marks));
                    }
                }
                lemma_insert_keeps_marks(a2, new_a, b2, new_b, marks, i as nat);
            } else {
                let a2 = a.remove(i);
                let b2 = b.remove(i);
                assert forall|k: int| 0 <= k < a2.len() implies marked_as(
                    #[trigger] a2[k],
                    b2[k],
                    marks,
                ) by {
                    if k < i {
                        assert(marked_as(a[k], b[k], marks));
                    } else {
                        assert(marked_as(a[k + 1], b[k + 1], marks));
                    }
                }
                lemma_insert_keeps_marks(a2, new_a, b2, new_b, marks, i as nat);
            }
        } else {
            let ra = insert_from(a, new_a, idx);
            let rb = insert_from(b, new_b, idx);
            assert(ra.len() == rb.len());
            assert forall|k: int| 0 <= k < ra.len() implies marked_as(
                #[trigger] ra[k],
                rb[k],
                marks,
            ) by {
                if 0 <= k < a.len() {
                    assert(marked_as(a[k], b[k], marks));
                }
                if 0 <= k - 1 < a.len() {
                    assert(marked_as(a[k - 1], b[k - 1], marks));
                }
                if 0 <= k - 2 < a.len() {
                    assert(marked_as(a[k - 2], b[k - 2], marks));
                }
            }
        }
    } else {
        let ra = insert_from(a, new_a, idx);
        let rb = insert_from(b, new_b, idx);
        assert forall|k: int| 0 <= k < ra.len() implies marked_as(
            #[trigger] ra[k],
            rb[k],
            marks,
        ) by {
            if k > 0 {
                assert(marked_as(a[k - 1], b[k - 1], marks));
            }
        }
    }
}

/// An insertion adds at most two entries to the buffer.
pub proof fn lemma_insert_adds_at_most_two(buf: Seq<Piece>, new: Piece, idx: nat)
    requires
        idx <= buf.len(),
    ensures
        insert_from(buf, new, idx).len() <= buf.len() + 2,
    decreases idx,
{
    if idx > 0 {
        let i = idx - 1;
        let existing = buf[i];
        if existing.end > new.start && existing.start >= new.end {
            lemma_insert_adds_at_most_two(buf, new, i as nat);
        } else if existing.end > new.start && existing.priority < new.priority
            && existing.start >= new.start {
            if new.end < existing.end {
                lemma_insert_adds_at_most_two(
                    buf.update(i, Piece { start: new.end, ..existing }),
                    new,
                    i as nat,
                );
            } else {
                lemma_insert_adds_at_most_two(buf.remove(i), new, i as nat);
            }
        }
    }
}

/// What the merge holds between two of its results: the pieces that a later
/// item may still cut, how many items of the input it has taken, and the
/// start of the last of them.
pub struct MergeState {
    pub buffer: Seq<Piece>,
    pub consumed: nat,
    pub horizon: int,
}

/// The state before the first item is taken.
pub open spec fn initial_state() -> MergeState {
    MergeState { buffer: Seq::empty(), consumed: 0, horizon: 0 }
}

/// Takes items of `input` from place `consumed` on and lays each over the
/// buffer, until one starts behind `first_end` or none is left. Without a
/// `first_end` the end of the first item taken stands for it. Gives the
/// buffer and the number of items taken in all.
pub open spec fn pull(input: Seq<Piece>, buffer: Seq<Piece>, consumed: nat, first_end: Option<int>) -> (
    Seq<Piece>,
    nat,
)
    decreases input.len() - consumed,
{
    if consumed >= input.len() {
        (buffer, consumed)
    } else {
        let item = input[consumed as int];
        let grown = insert(buffer, item);
        let end = match first_end {
            Some(end) => end,
            None => item.end,
        };
        if end < item.start {
            (grown, consumed + 1)
        } else {
            pull(input, grown, consumed + 1, Some(end))
        }
    }
}

/// One result of the merge and the state that it leaves. A front piece that
/// ends before the horizon is handed out at once. Otherwise items are pulled
/// until one starts behind the end that the front piece had, and the piece
/// then at the front is handed out; with an empty buffer and no item left
/// there is no result.
pub open spec fn step(input: Seq<Piece>, state: MergeState) -> (MergeState, Option<Piece>) {
    if state.buffer.len() > 0 && state.buffer[0].end < state.horizon {
        (MergeState { buffer: state.buffer.drop_first(), ..state }, Some(state.buffer[0]))
    } else {
        let first_end = if state.buffer.len() > 0 {
            Some(state.buffer[0].end)
        } else {
            None
        };
        let (buffer, consumed) = pull(input, state.buffer, state.consumed, first_end);
        let horizon = if consumed > state.consumed {
            input[consumed - 1].start
        } else {
            state.horizon
        };
        if buffer.len() > 0 {
            (MergeState { buffer: buffer.drop_first(), consumed, horizon }, Some(buffer[0]))
        } else {
            (MergeState { buffer, consumed, horizon }, None)
        }
    }
}

/// A bound on the number of results that a state can still give.
pub open spec fn weight(input: Seq<Piece>, state: MergeState) -> nat {
    if state.consumed >= input.len() {
        state.buffer.len()
    } else {
        (3 * (input.len() - state.consumed) + state.buffer.len()) as nat
    }
}

#[verifier::rlimit(40)]
pub proof fn lemma_pull_bounds(
    input: Seq<Piece>,
    buffer: Seq<Piece>,
    consumed: nat,
    first_end: Option<int>,
)
    ensures
        ({
            let (grown, taken) = pull(input, buffer, consumed, first_end);
            &&& consumed <= taken
            &&& consumed <= input.len() ==> taken <= input.len()
            &&& consumed >= input.len() ==> taken == consumed && grown == buffer
            &&& consumed < input.len() ==> consumed < taken && grown.len() + 3 * (input.len()
                - taken) < buffer.len() + 3 * (input.len() - consumed)
        }),
    decreases input.len() - consumed,
{
    if consumed < input.len() {
        let item = input[consumed as int];
        let grown = insert(buffer, item);
        lemma_insert_adds_at_most_two(buffer, item, buffer.len());
        let end = match first_end {
            Some(end) => end,
            None => item.end,
        };
        if !(end < item.start) {
            lemma_pull_bounds(input, grown, consumed + 1, Some(end));
        }
    }
}

/// Every result makes the state lighter.
#[verifier::rlimit(40)]
pub proof fn lemma_step_lightens(input: Seq<Piece>, state: MergeState)
    ensures
        step(input, state).1 is Some ==> weight(input, step(input, state).0) < weight(
            input,
            state,
        ),
        weight(input, step(input, state).0) <= weight(input, state),
{
    if !(state.buffer.len() > 0 && state.buffer[0].end < state.horizon) {
        let first_end = if state.buffer.len() > 0 {
            Some(state.buffer[0].end)
        } else {
            None
        };
        lemma_pull_bounds(input, state.buffer, state.consumed, first_end);
    }
}

/// All the results that the merge gives from `state` on, in their order.
pub open spec fn outputs_from(input: Seq<Piece>, state: MergeState) -> Seq<Piece>
    decreases weight(input, state),
{
    let (next, out) = step(input, state);
    match out {
        None => Seq::empty(),
        Some(piece) => {
            proof {
                lemma_step_lightens(input, state);
            }
            seq![piece] + outputs_from(input, next)
        },
    }
}

/// All the results of the merge of `input`, in their order.
pub open spec fn outputs(input: Seq<Piece>) -> Seq<Piece> {
    outputs_from(input, initial_state())
}

} // verus!
