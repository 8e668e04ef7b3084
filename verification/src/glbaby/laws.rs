//! Properties of the node graph that span several calls.
use vstd::prelude::*;
use crate::glbaby::{Action, DrawFlag, GlobalGL, MainView, Node, SocketOperation, SocketView};
use crate::glbaby::plugsocket::Operation;

verus! {

/// Merging keeps exactly the items of both sides: an item is in
/// `append_new(acc, add)` if and only if it is in `acc` or in `add`.
pub proof fn lemma_append_new_contains<T>(acc: Seq<T>, add: Seq<T>, x: T)
    ensures
        super::append_new(acc, add).contains(x) <==> (acc.contains(x) || add.contains(x)),
    decreases add.len(),
{
    if add.len() > 0 {
        lemma_append_new_contains(acc, add.drop_last(), x);
        let prev = super::append_new(acc, add.drop_last());
        assert(add =~= add.drop_last().push(add.last()));
        if add.drop_last().contains(x) {
            let i = choose|i: int| 0 <= i < add.drop_last().len() && add.drop_last()[i] == x;
            assert(add[i] == x);
        }
        if add.contains(x) && !add.drop_last().contains(x) {
            let i = choose|i: int| 0 <= i < add.len() && add[i] == x;
            if i < add.len() - 1 {
                assert(add.drop_last()[i] == x);
            }
        }
        if !prev.contains(add.last()) {
            let now = prev.push(add.last());
            if prev.contains(x) {
                let i = choose|i: int| 0 <= i < prev.len() && prev[i] == x;
                assert(now[i] == x);
            }
            if now.contains(x) && x != add.last() {
                let i = choose|i: int| 0 <= i < now.len() && now[i] == x;
                assert(prev[i] == x);
            }
            assert(now[now.len() - 1] == add.last());
        }
    }
}

/// Merging never brings in a duplicate: when `acc` holds no item twice,
/// neither does `append_new(acc, add)`.
pub proof fn lemma_append_new_no_duplicates<T>(acc: Seq<T>, add: Seq<T>)
    requires
        acc.no_duplicates(),
    ensures
        super::append_new(acc, add).no_duplicates(),
    decreases add.len(),
{
    if add.len() > 0 {
        lemma_append_new_no_duplicates(acc, add.drop_last());
        let prev = super::append_new(acc, add.drop_last());
        if !prev.contains(add.last()) {
            let now = prev.push(add.last());
            assert forall|i: int, j: int| 0 <= i < now.len() && 0 <= j < now.len() && i != j
                implies now[i] != now[j] by {
                if i == now.len() - 1 {
                    assert(prev[j] == now[j]);
                } else if j == now.len() - 1 {
                    assert(prev[i] == now[i]);
                }
            }
        }
    }
}

/// The distinct items of a sequence hold no item twice, and hold exactly the
/// items of the sequence.
pub proof fn lemma_first_occurrences<T>(s: Seq<T>, x: T)
    ensures
        super::first_occurrences(s).no_duplicates(),
        super::first_occurrences(s).contains(x) <==> s.contains(x),
{
    lemma_append_new_no_duplicates(Seq::<T>::empty(), s);
    lemma_append_new_contains(Seq::<T>::empty(), s, x);
}


/// A socket's value lies within its bounds when `min <= max`, is the plain
/// sum when that lies within them, and is `min` when `max < min`.
pub proof fn lemma_clamp(v: int, min: i32, max: i32)
    ensures
        min <= max ==> min <= crate::glbaby::plugsocket::clamp(v, min, max) <= max,
        min <= v <= max ==> crate::glbaby::plugsocket::clamp(v, min, max) == v,
        max < min ==> crate::glbaby::plugsocket::clamp(v, min, max) == min,
{
}

/// Toggling latches one of the two bounds.
pub proof fn lemma_toggle_latches_a_bound(s: SocketView, v: i32)
    ensures
        ({
            let t = super::operate(s, SocketOperation::LATCHTOGGLE, v);
            t.latched == s.min || t.latched == s.max
        }),
{
}

/// Toggling twice gives back the socket, when a bound is latched and the two
/// bounds differ.
pub proof fn lemma_toggle_twice(s: SocketView, v: i32, w: i32)
    requires
        s.min != s.max,
        s.latched == s.min || s.latched == s.max,
    ensures
        super::operate(super::operate(s, SocketOperation::LATCHTOGGLE, v), SocketOperation::LATCHTOGGLE, w) == s,
{
}

/// Socket `j` drives cell `r` of node `p`.
pub open spec fn drives(sockets: Seq<SocketView>, j: usize, p: int, r: int) -> bool {
    sockets[j as int].parent_ref == p && sockets[j as int].reference == r
}

/// The last socket listed in `order` that drives cell `r` of node `p`.
pub open spec fn last_writer(sockets: Seq<SocketView>, order: Seq<usize>, p: int, r: int) -> Option<usize>
    decreases order.len(),
{
    if order.len() == 0 {
        None
    } else if drives(sockets, order.last(), p, r) {
        Some(order.last())
    } else {
        last_writer(sockets, order.drop_last(), p, r)
    }
}

/// Every socket listed in `order` exists and drives an existing cell.
pub open spec fn valid_order(cells: Seq<Seq<i32>>, sockets: Seq<SocketView>, order: Seq<usize>) -> bool {
    forall|k: int|
        #![trigger order[k]]
        0 <= k < order.len() ==> {
            &&& order[k] < sockets.len()
            &&& sockets[order[k] as int].parent_ref < cells.len()
            &&& sockets[order[k] as int].reference < cells[sockets[order[k] as int].parent_ref as int].len()
        }
}

/// The last writer of a cell is one of the listed sockets and drives that
/// cell; there is one whenever a listed socket drives the cell.
pub proof fn lemma_last_writer(sockets: Seq<SocketView>, order: Seq<usize>, p: int, r: int)
    ensures
        last_writer(sockets, order, p, r) matches Some(j) ==> order.contains(j) && drives(sockets, j, p, r),
        (exists|k: int| 0 <= k < order.len() && drives(sockets, order[k], p, r))
            <==> last_writer(sockets, order, p, r) is Some,
    decreases order.len(),
{
    if order.len() > 0 {
        lemma_last_writer(sockets, order.drop_last(), p, r);
        if let Some(j) = last_writer(sockets, order, p, r) {
            if !drives(sockets, order.last(), p, r) {
                let k = choose|k: int| 0 <= k < order.drop_last().len() && order.drop_last()[k] == j;
                assert(order[k] == j);
            } else {
                assert(order[order.len() - 1] == j);
            }
        }
        if exists|k: int| 0 <= k < order.len() && drives(sockets, order[k], p, r) {
            let k = choose|k: int| 0 <= k < order.len() && drives(sockets, order[k], p, r);
            if k < order.len() - 1 {
                assert(order.drop_last()[k] == order[k]);
            }
        }
        if last_writer(sockets, order.drop_last(), p, r) is Some {
            let k = choose|k: int| 0 <= k < order.drop_last().len() && drives(sockets, order.drop_last()[k], p, r);
            assert(order[k] == order.drop_last()[k]);
        }
    }
}

/// What a run of writes leaves in a cell: the value of the last listed socket
/// that drives it, or what the cell held when none does. The shape of the
/// cells does not change.
pub proof fn lemma_write_cells(cells: Seq<Seq<i32>>, sockets: Seq<SocketView>, order: Seq<usize>, p: int, r: int)
    requires
        valid_order(cells, sockets, order),
    ensures
        super::write_cells(cells, sockets, order).len() == cells.len(),
        forall|n: int| 0 <= n < cells.len() ==> (#[trigger] super::write_cells(cells, sockets, order)[n]).len() == cells[n].len(),
        0 <= p < cells.len() && 0 <= r < cells[p].len() ==> super::write_cells(cells, sockets, order)[p][r] == match last_writer(sockets, order, p, r) {
            Some(j) => sockets[j as int].value(),
            None => cells[p][r],
        },
    decreases order.len(),
{
    if order.len() > 0 {
        let rest = order.drop_last();
        assert(valid_order(cells, sockets, rest)) by {
            assert forall|k: int| 0 <= k < rest.len() implies #[trigger] rest[k] == order[k] by {}
        }
        lemma_write_cells(cells, sockets, rest, p, r);
        let s = sockets[order.last() as int];
        assert(order[order.len() - 1] == order.last());
    }
}

/// The flags that a run of sockets raises on a node: a node carries a flag
/// afterwards if and only if it carried it before or a listed socket of that
/// node has it.
pub proof fn lemma_raise_flags(flags: Seq<Seq<DrawFlag>>, sockets: Seq<SocketView>, order: Seq<usize>, n: int, f: DrawFlag)
    requires
        forall|k: int|
            #![trigger order[k]]
            0 <= k < order.len() ==> order[k] < sockets.len() && sockets[order[k] as int].parent_ref < flags.len(),
    ensures
        super::raise_flags(flags, sockets, order).len() == flags.len(),
        0 <= n < flags.len() ==> (super::raise_flags(flags, sockets, order)[n].contains(f) <==> (flags[n].contains(f)
            || exists|k: int|
            0 <= k < order.len() && sockets[order[k] as int].parent_ref == n && sockets[order[k] as int].flag.contains(f))),
    decreases order.len(),
{
    if order.len() > 0 {
        let rest = order.drop_last();
        assert forall|k: int| 0 <= k < rest.len() implies #[trigger] rest[k] == order[k] by {}
        lemma_raise_flags(flags, sockets, rest, n, f);
        let prev = super::raise_flags(flags, sockets, rest);
        let s = sockets[order.last() as int];
        if 0 <= n < flags.len() {
            lemma_append_new_contains(prev[s.parent_ref as int], s.flag, f);
            let last = order.len() - 1;
            assert(order[last] == order.last());
            if exists|k: int|
                0 <= k < order.len() && sockets[order[k] as int].parent_ref == n && sockets[order[k] as int].flag.contains(f) {
                let k = choose|k: int|
                    0 <= k < order.len() && sockets[order[k] as int].parent_ref == n && sockets[order[k] as int].flag.contains(f);
                if k < last {
                    assert(rest[k] == order[k]);
                }
            }
        }
    }
}

/// Sockets in the change buffer exist and drive existing cells.
proof fn lemma_order_valid<N: Node>(m: MainView<N>)
    requires
        m.wf(),
    ensures
        valid_order(m.cells(), m.sockets, super::first_occurrences(m.changebuffer)),
{
    let order = super::first_occurrences(m.changebuffer);
    assert forall|k: int| #![trigger order[k]] 0 <= k < order.len() implies {
        &&& order[k] < m.sockets.len()
        &&& m.sockets[order[k] as int].parent_ref < m.cells().len()
        &&& m.sockets[order[k] as int].reference < m.cells()[m.sockets[order[k] as int].parent_ref as int].len()
    } by {
        lemma_first_occurrences(m.changebuffer, order[k]);
        assert(order.contains(order[k]));
        let c = choose|c: int| 0 <= c < m.changebuffer.len() && m.changebuffer[c] == order[k];
        assert(m.changebuffer[c] < m.sockets.len());
        assert(m.drives_a_cell(order[k] as int));
    }
}

/// A latched value reaches the cell its socket drives: after
/// `modify(i, SETLATCHED, v)`, the next `unwind` leaves in that cell the
/// socket's value for latched `v`, clamped to its bounds, as long as no other
/// socket in the change buffer drives the same cell.
pub proof fn law_latched_value_reaches_cell<N: Node>(m: MainView<N>, i: usize, v: i32)
    requires
        m.wf(),
        i < m.sockets.len(),
        forall|k: int|
            0 <= k < m.changebuffer.len() && #[trigger] m.changebuffer[k] != i ==> !drives(
                m.sockets,
                m.changebuffer[k],
                m.sockets[i as int].parent_ref as int,
                m.sockets[i as int].reference as int,
            ),
    ensures
        ({
            let s = m.sockets[i as int];
            let m1 = MainView {
                sockets: m.sockets.update(i as int, super::operate(s, SocketOperation::SETLATCHED, v)),
                changebuffer: m.changebuffer.push(i),
                ..m
            };
            let cells = super::write_cells(m1.cells(), m1.sockets, super::first_occurrences(m1.changebuffer));
            cells[s.parent_ref as int][s.reference as int] == crate::glbaby::plugsocket::clamp(
                v + s.volatile,
                s.min,
                s.max,
            )
        }),
{
    let s = m.sockets[i as int];
    let p = s.parent_ref as int;
    let r = s.reference as int;
    let m1 = MainView {
        sockets: m.sockets.update(i as int, super::operate(s, SocketOperation::SETLATCHED, v)),
        changebuffer: m.changebuffer.push(i),
        ..m
    };
    assert(m.drives_a_cell(i as int));
    assert(m1.wf()) by {
        assert forall|j: int| 0 <= j < m1.sockets.len() implies #[trigger] m1.drives_a_cell(j) by {
            assert(m.drives_a_cell(j));
        }
        assert forall|k: int| 0 <= k < m1.changebuffer.len() implies #[trigger] m1.changebuffer[k] < m1.sockets.len() by {
            if k < m.changebuffer.len() {
                assert(m.changebuffer[k] < m.sockets.len());
            }
        }
        assert forall|j: int| 0 <= j < m1.sockets.len() implies
            m1.socketparent[(#[trigger] m1.sockets[j]).parent_ref as int].contains(j as usize) by {
            assert(m.socketparent[m.sockets[j].parent_ref as int].contains(j as usize));
        }
    }
    let order = super::first_occurrences(m1.changebuffer);
    lemma_order_valid(m1);
    lemma_write_cells(m1.cells(), m1.sockets, order, p, r);
    lemma_last_writer(m1.sockets, order, p, r);
    lemma_first_occurrences(m1.changebuffer, i);
    assert(m1.changebuffer[m.changebuffer.len() as int] == i);
    let ki = choose|k: int| 0 <= k < order.len() && order[k] == i;
    assert(drives(m1.sockets, order[ki], p, r));
    let j = last_writer(m1.sockets, order, p, r)->0;
    lemma_first_occurrences(m1.changebuffer, j);
    let c = choose|c: int| 0 <= c < m1.changebuffer.len() && m1.changebuffer[c] == j;
    if j != i {
        assert(m.changebuffer[c] == j);
        assert(m1.sockets[j as int] == m.sockets[j as int]);
    }
    assert(m.cells().len() == m.nodes.len());
}

/// After `unwind`, a node carries a flag if and only if it carried it before
/// or a socket of that node in the change buffer has it.
pub proof fn law_unwind_raises_flags<N: Node>(m: MainView<N>, n: int, f: DrawFlag)
    requires
        m.wf(),
        0 <= n < m.nodes.len(),
    ensures
        super::raise_flags(m.flags, m.sockets, super::first_occurrences(m.changebuffer))[n].contains(f) <==> (
        m.flags[n].contains(f) || exists|k: int|
            0 <= k < m.changebuffer.len() && m.sockets[m.changebuffer[k] as int].parent_ref == n
                && m.sockets[m.changebuffer[k] as int].flag.contains(f)),
{
    let order = super::first_occurrences(m.changebuffer);
    lemma_order_valid(m);
    lemma_raise_flags(m.flags, m.sockets, order, n, f);
    if exists|k: int|
        0 <= k < order.len() && m.sockets[order[k] as int].parent_ref == n && m.sockets[order[k] as int].flag.contains(f) {
        let k = choose|k: int|
            0 <= k < order.len() && m.sockets[order[k] as int].parent_ref == n && m.sockets[order[k] as int].flag.contains(f);
        lemma_first_occurrences(m.changebuffer, order[k]);
        assert(order.contains(order[k]));
    }
    if exists|k: int|
        0 <= k < m.changebuffer.len() && m.sockets[m.changebuffer[k] as int].parent_ref == n
            && m.sockets[m.changebuffer[k] as int].flag.contains(f) {
        let k = choose|k: int|
            0 <= k < m.changebuffer.len() && m.sockets[m.changebuffer[k] as int].parent_ref == n
                && m.sockets[m.changebuffer[k] as int].flag.contains(f);
        lemma_first_occurrences(m.changebuffer, m.changebuffer[k]);
        assert(m.changebuffer.contains(m.changebuffer[k]));
        let q = choose|q: int| 0 <= q < order.len() && order[q] == m.changebuffer[k];
        assert(m.sockets[order[q] as int].parent_ref == n);
    }
}

/// Merging in items that are all there already changes nothing.
pub proof fn lemma_append_new_absorbed<T>(acc: Seq<T>, add: Seq<T>)
    requires
        forall|i: int| 0 <= i < add.len() ==> acc.contains(#[trigger] add[i]),
    ensures
        super::append_new(acc, add) == acc,
    decreases add.len(),
{
    if add.len() > 0 {
        let rest = add.drop_last();
        assert forall|i: int| 0 <= i < rest.len() implies acc.contains(#[trigger] rest[i]) by {
            assert(rest[i] == add[i]);
        }
        lemma_append_new_absorbed(acc, rest);
        assert(acc.contains(add[add.len() - 1]));
    }
}

/// Raising again the flags of sockets whose flags are all raised already
/// changes nothing.
proof fn lemma_raise_flags_absorbed(flags: Seq<Seq<DrawFlag>>, sockets: Seq<SocketView>, order: Seq<usize>)
    requires
        forall|k: int|
            #![trigger order[k]]
            0 <= k < order.len() ==> {
                &&& order[k] < sockets.len()
                &&& sockets[order[k] as int].parent_ref < flags.len()
                &&& forall|i: int|
                    0 <= i < sockets[order[k] as int].flag.len() ==> flags[sockets[order[k] as int].parent_ref as int].contains(
                        #[trigger] sockets[order[k] as int].flag[i],
                    )
            },
    ensures
        super::raise_flags(flags, sockets, order) == flags,
    decreases order.len(),
{
    if order.len() > 0 {
        let rest = order.drop_last();
        assert forall|k: int| 0 <= k < rest.len() implies #[trigger] rest[k] == order[k] by {}
        lemma_raise_flags_absorbed(flags, sockets, rest);
        let last = order.len() - 1;
        assert(order[last] == order.last());
        let s = sockets[order.last() as int];
        lemma_append_new_absorbed(flags[s.parent_ref as int], s.flag);
        assert(flags.update(s.parent_ref as int, flags[s.parent_ref as int]) =~= flags);
    }
}

/// Applying the same changes twice in a row leaves the cells and the flags
/// as applying them once does: an `unwind` right after an `unwind` changes
/// neither (it asks for the same callbacks again).
pub proof fn law_unwind_twice<N: Node>(m: MainView<N>)
    requires
        m.wf(),
    ensures
        ({
            let order = super::first_occurrences(m.changebuffer);
            let once = super::write_cells(m.cells(), m.sockets, order);
            super::write_cells(once, m.sockets, order) == once
        }),
        ({
            let order = super::first_occurrences(m.changebuffer);
            let once = super::raise_flags(m.flags, m.sockets, order);
            super::raise_flags(once, m.sockets, order) == once
        }),
{
    let order = super::first_occurrences(m.changebuffer);
    let cells = m.cells();
    let once = super::write_cells(cells, m.sockets, order);
    lemma_order_valid(m);
    lemma_write_cells(cells, m.sockets, order, 0, 0);
    assert(valid_order(once, m.sockets, order)) by {
        assert forall|k: int| #![trigger order[k]] 0 <= k < order.len() implies {
            &&& order[k] < m.sockets.len()
            &&& m.sockets[order[k] as int].parent_ref < once.len()
            &&& m.sockets[order[k] as int].reference < once[m.sockets[order[k] as int].parent_ref as int].len()
        } by {
            let q = m.sockets[order[k] as int].parent_ref as int;
            assert(once[q].len() == cells[q].len());
        }
    }
    let twice = super::write_cells(once, m.sockets, order);
    lemma_write_cells(once, m.sockets, order, 0, 0);
    assert forall|p: int| 0 <= p < once.len() implies #[trigger] twice[p] =~= once[p] by {
        assert forall|r: int| 0 <= r < once[p].len() implies twice[p][r] == once[p][r] by {
            lemma_write_cells(cells, m.sockets, order, p, r);
            lemma_write_cells(once, m.sockets, order, p, r);
        }
    }
    assert(twice =~= once);

    let raised = super::raise_flags(m.flags, m.sockets, order);
    lemma_raise_flags(m.flags, m.sockets, order, 0, DrawFlag::REDRAW);
    assert forall|k: int| #![trigger order[k]] 0 <= k < order.len() implies {
        &&& order[k] < m.sockets.len()
        &&& m.sockets[order[k] as int].parent_ref < raised.len()
        &&& forall|i: int|
            0 <= i < m.sockets[order[k] as int].flag.len() ==> raised[m.sockets[order[k] as int].parent_ref as int].contains(
                #[trigger] m.sockets[order[k] as int].flag[i],
            )
    } by {
        let s = m.sockets[order[k] as int];
        assert forall|i: int| 0 <= i < s.flag.len() implies raised[s.parent_ref as int].contains(#[trigger] s.flag[i]) by {
            lemma_raise_flags(m.flags, m.sockets, order, s.parent_ref as int, s.flag[i]);
            assert(s.flag.contains(s.flag[i]));
        }
    }
    lemma_raise_flags_absorbed(raised, m.sockets, order);
}


/// Merging only appends: `acc` is a prefix of `append_new(acc, add)`.
pub proof fn lemma_append_new_prefix<T>(acc: Seq<T>, add: Seq<T>)
    ensures
        acc.is_prefix_of(super::append_new(acc, add)),
    decreases add.len(),
{
    if add.len() > 0 {
        lemma_append_new_prefix(acc, add.drop_last());
        let prev = super::append_new(acc, add.drop_last());
        if !prev.contains(add.last()) {
            assert(prev.push(add.last()).subrange(0, acc.len() as int) =~= prev.subrange(0, acc.len() as int));
        }
    }
}

/// Raising flags only appends to each node's flags, and leaves the flags of
/// a node that no listed socket belongs to as they were.
pub proof fn lemma_raise_flags_grow(flags: Seq<Seq<DrawFlag>>, sockets: Seq<SocketView>, order: Seq<usize>, n: int)
    requires
        forall|k: int|
            #![trigger order[k]]
            0 <= k < order.len() ==> order[k] < sockets.len() && sockets[order[k] as int].parent_ref < flags.len(),
        0 <= n < flags.len(),
    ensures
        super::raise_flags(flags, sockets, order).len() == flags.len(),
        flags[n].is_prefix_of(super::raise_flags(flags, sockets, order)[n]),
        (forall|k: int| 0 <= k < order.len() ==> sockets[#[trigger] order[k] as int].parent_ref != n)
            ==> super::raise_flags(flags, sockets, order)[n] == flags[n],
    decreases order.len(),
{
    if order.len() > 0 {
        let rest = order.drop_last();
        assert forall|k: int| 0 <= k < rest.len() implies #[trigger] rest[k] == order[k] by {}
        lemma_raise_flags_grow(flags, sockets, rest, n);
        let prev = super::raise_flags(flags, sockets, rest);
        let s = sockets[order.last() as int];
        let last = order.len() - 1;
        assert(order[last] == order.last());
        lemma_raise_flags(flags, sockets, rest, n, DrawFlag::REDRAW);
        if s.parent_ref == n {
            lemma_append_new_prefix(prev[n], s.flag);
            assert(flags[n].is_prefix_of(super::append_new(prev[n], s.flag))) by {
                assert(super::append_new(prev[n], s.flag).subrange(0, flags[n].len() as int)
                    =~= prev[n].subrange(0, flags[n].len() as int));
            }
        }
    }
}

/// `unwind` only appends flags to a node, and leaves the flags of a node none
/// of whose sockets is in the change buffer as they were.
pub proof fn law_unwind_flags_grow<N: Node>(m: MainView<N>, n: int)
    requires
        m.wf(),
        0 <= n < m.nodes.len(),
    ensures
        m.flags[n].is_prefix_of(super::raise_flags(m.flags, m.sockets, super::first_occurrences(m.changebuffer))[n]),
        (forall|k: int| 0 <= k < m.changebuffer.len() ==> m.sockets[#[trigger] m.changebuffer[k] as int].parent_ref != n)
            ==> super::raise_flags(m.flags, m.sockets, super::first_occurrences(m.changebuffer))[n] == m.flags[n],
{
    let order = super::first_occurrences(m.changebuffer);
    lemma_order_valid(m);
    lemma_raise_flags_grow(m.flags, m.sockets, order, n);
    if forall|k: int| 0 <= k < m.changebuffer.len() ==> m.sockets[#[trigger] m.changebuffer[k] as int].parent_ref != n {
        assert forall|k: int| 0 <= k < order.len() implies m.sockets[#[trigger] order[k] as int].parent_ref != n by {
            lemma_first_occurrences(m.changebuffer, order[k]);
            assert(order.contains(order[k]));
            let c = choose|c: int| 0 <= c < m.changebuffer.len() && m.changebuffer[c] == order[k];
            assert(m.sockets[m.changebuffer[c] as int].parent_ref != n);
        }
    }
}


/// What `modify` does to the socket it changes. Latching sets the latched
/// value to the given one. Toggling latches `max` when `min` was latched and
/// `min` otherwise, so a latched value strictly between the bounds, or equal
/// to `max` when `max != min`, becomes `min`. Nothing else of the socket
/// changes.
pub proof fn law_modify_changes_only_latched(s: SocketView, op: SocketOperation, v: i32)
    ensures
        ({
            let t = super::operate(s, op, v);
            &&& t.volatile == s.volatile
            &&& t.min == s.min
            &&& t.max == s.max
            &&& t.reference == s.reference
            &&& t.call == s.call
            &&& t.flag == s.flag
            &&& t.parent_ref == s.parent_ref
            &&& t.name == s.name
            &&& op == SocketOperation::SETLATCHED ==> t.latched == v
            &&& op == SocketOperation::LATCHTOGGLE && s.latched == s.min ==> t.latched == s.max
            &&& op == SocketOperation::LATCHTOGGLE && s.latched != s.min ==> t.latched == s.min
            &&& op == SocketOperation::LATCHTOGGLE && s.min < s.latched < s.max ==> t.latched == s.min
        }),
{
}

/// The call of callback `h` with the value of socket `s`: its latched plus
/// volatile value, clamped to its bounds.
pub open spec fn call_with_clamped_value(s: SocketView, h: usize) -> Action {
    Action::Call {
        handle: h,
        value: crate::glbaby::plugsocket::clamp(s.latched + s.volatile, s.min, s.max),
    }
}

/// Every call that applying changes asks for carries the value of a changed
/// socket that has that callback: its latched plus volatile value clamped to
/// its bounds, the value written into the cell it drives. Conversely every
/// listed socket with a callback asks for that call.
pub proof fn law_calls_carry_socket_values(sockets: Seq<SocketView>, order: Seq<usize>)
    requires
        forall|k: int| 0 <= k < order.len() ==> #[trigger] order[k] < sockets.len(),
    ensures
        forall|a: Action|
            #[trigger] super::callbacks(sockets, order).contains(a) ==> (exists|k: int, h: usize|
                #![trigger call_with_clamped_value(sockets[order[k] as int], h)]
                0 <= k < order.len() && sockets[order[k] as int].call == Some(h)
                    && a == call_with_clamped_value(sockets[order[k] as int], h)),
        forall|k: int, h: usize|
            #![trigger call_with_clamped_value(sockets[order[k] as int], h)]
            0 <= k < order.len() && sockets[order[k] as int].call == Some(h)
                ==> super::callbacks(sockets, order).contains(call_with_clamped_value(sockets[order[k] as int], h)),
    decreases order.len(),
{
    if order.len() > 0 {
        let rest = order.drop_last();
        let last = order.len() - 1;
        assert forall|k: int| 0 <= k < rest.len() implies #[trigger] rest[k] == order[k] by {}
        law_calls_carry_socket_values(sockets, rest);
        let prev = super::callbacks(sockets, rest);
        assert(order[last] == order.last());
        let now = super::callbacks(sockets, order);
        assert forall|a: Action| #[trigger] now.contains(a) implies (exists|k: int, h: usize|
            #![trigger call_with_clamped_value(sockets[order[k] as int], h)]
            0 <= k < order.len() && sockets[order[k] as int].call == Some(h)
                && a == call_with_clamped_value(sockets[order[k] as int], h)) by {
            let i = choose|i: int| 0 <= i < now.len() && now[i] == a;
            if i < prev.len() {
                assert(prev[i] == a);
                assert(prev.contains(a));
                let (k, h) = choose|k: int, h: usize|
                    #![trigger call_with_clamped_value(sockets[rest[k] as int], h)]
                    0 <= k < rest.len() && sockets[rest[k] as int].call == Some(h)
                        && a == call_with_clamped_value(sockets[rest[k] as int], h);
                assert(order[k] == rest[k]);
                assert(a == call_with_clamped_value(sockets[order[k] as int], h));
            } else {
                let h = sockets[order[last] as int].call->0;
                assert(sockets[order[last] as int].call == Some(h));
                assert(a == call_with_clamped_value(sockets[order[last] as int], h));
            }
        }
        assert forall|k: int, h: usize|
            #![trigger call_with_clamped_value(sockets[order[k] as int], h)]
            0 <= k < order.len() && sockets[order[k] as int].call == Some(h)
                implies now.contains(call_with_clamped_value(sockets[order[k] as int], h)) by {
            let c = call_with_clamped_value(sockets[order[k] as int], h);
            if k < last {
                assert(rest[k] == order[k]);
                assert(prev.contains(c));
                let i = choose|i: int| 0 <= i < prev.len() && prev[i] == c;
                assert(now[i] == c);
            } else {
                assert(now[now.len() - 1] == c);
            }
        }
    }
}

/// The sockets a `GlobalGL` hands out: "red" driving cell 0, and "green",
/// "blue" and "alpha" all driving cell 1; each bounded by 0 and 1000, with
/// nothing latched, no callback, parent 0, and exactly the flag `REDRAW`, so
/// that a change to any of them makes the node redraw.
pub proof fn law_global_gl_sockets(g: GlobalGL)
    ensures
        g.socket_views().len() == 4,
        forall|k: int|
            0 <= k < 4 ==> {
                let s = #[trigger] g.socket_views()[k];
                &&& s.latched == 0
                &&& s.volatile == 0
                &&& (s.call is None)
                &&& s.flag == seq![DrawFlag::REDRAW]
                &&& s.flag.contains(DrawFlag::REDRAW)
                &&& s.min == 0
                &&& s.max == 1000
                &&& s.parent_ref == 0
                &&& s.reference == (if k == 0 { 0usize } else { 1usize })
            },
        g.socket_views()[0].name == "red"@,
        g.socket_views()[1].name == "green"@,
        g.socket_views()[2].name == "blue"@,
        g.socket_views()[3].name == "alpha"@,
{
    assert forall|k: int| 0 <= k < 4 implies #[trigger] g.socket_views()[k].flag.contains(DrawFlag::REDRAW) by {
        assert(g.socket_views()[k].flag[0] == DrawFlag::REDRAW);
    }
}

/// What a plug's write does to its socket. A latching write sets the latched
/// value to the plug's value; an adding write adds the plug's value to the
/// volatile value. Nothing else of the socket changes, so its value becomes
/// the plug's value plus the old volatile part, or the old latched plus
/// volatile part plus the plug's value, clamped to its bounds.
pub proof fn law_plug_write(s: crate::glbaby::plugsocket::SocketView, op: Operation, value: i32)
    requires
        crate::glbaby::plugsocket::can_write(s, op, value),
    ensures
        ({
            let w = crate::glbaby::plugsocket::written(s, op, value);
            &&& w.min == s.min
            &&& w.max == s.max
            &&& w.scale == s.scale
            &&& op == Operation::SETLATCH ==> w.latched == value && w.volatile == s.volatile
            &&& op == Operation::SETLATCH ==> w.value() == crate::glbaby::plugsocket::clamp(
                value + s.volatile,
                s.min,
                s.max,
            )
            &&& op == Operation::ADDVOLATILE ==> w.latched == s.latched && w.volatile == s.volatile + value
            &&& op == Operation::ADDVOLATILE ==> w.value() == crate::glbaby::plugsocket::clamp(
                s.latched + s.volatile + value,
                s.min,
                s.max,
            )
        }),
{
}

} // verus!
