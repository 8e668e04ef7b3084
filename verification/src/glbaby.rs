//! The node graph.
//!
//! Each node owns a row of input cells. Each socket drives one input cell of
//! its parent node: between frames, every socket that was modified computes its
//! value (its latched plus volatile value, kept within its bounds), writes it
//! into that cell, asks for its callback to be run with it, and raises its
//! drawing flags on the parent node. Then every node is updated and drawn with
//! its flags, and the flags are cleared.
//!
//! What has to reach the outside world (callbacks, OpenGL calls) is returned
//! as a list of [`Action`]s for the host to carry out, in order.
use vstd::prelude::*;
use itertools::Itertools;

pub mod plugsocket;
pub mod laws;

verus! {

/// A request that a socket raises on its parent node.
#[derive(PartialEq, Eq, Structural, Clone, Copy, Debug)]
pub enum DrawFlag {
    REDRAW,
    /// Meant to push these flags up one level; nothing acts on it yet.
    BROADCAST,
}

/// How [`GLMain::modify`] changes a socket.
#[derive(PartialEq, Eq, Structural, Clone, Copy, Debug)]
pub enum SocketOperation {
    /// Latch the given value.
    SETLATCHED,
    /// Latch `max` if `min` is latched, `min` otherwise.
    LATCHTOGGLE,
}

/// Work that the host carries out for the graph.
#[derive(PartialEq, Eq, Structural, Clone, Copy, Debug)]
pub enum Action {
    /// Run the callback registered under `handle` with `value`.
    Call { handle: usize, value: i32 },
    /// Set the OpenGL clear colour; each component is given in thousandths.
    ClearColor { r: i32, g: i32, b: i32, a: i32 },
}

/// `acc` followed by the items of `add` that are not already there, each
/// taken once, in the order of their first occurrence in `add`.
pub open spec fn append_new<T>(acc: Seq<T>, add: Seq<T>) -> Seq<T>
    decreases add.len(),
{
    if add.len() == 0 {
        acc
    } else {
        let prev = append_new(acc, add.drop_last());
        if prev.contains(add.last()) {
            prev
        } else {
            prev.push(add.last())
        }
    }
}

/// The distinct items of `s`, each at the place of its first occurrence.
pub open spec fn first_occurrences<T>(s: Seq<T>) -> Seq<T> {
    append_new(Seq::empty(), s)
}

/// The distinct socket indices of `changes`, in the order of their first
/// occurrence.
///
/// Calls `Itertools::unique`, whose documentation states that it yields the
/// items that were not yielded before, in the order of the underlying
/// iterator, keeping the first of equal items; this is believed, not proved.
#[verifier::external_body]
fn unique_indices(changes: &Vec<usize>) -> (order: Vec<usize>)
    ensures
        order@ == first_occurrences(changes@),
{
    changes.iter().copied().unique().collect()
}

/// Whether `flags` holds `flag`.
fn has_flag(flags: &Vec<DrawFlag>, flag: DrawFlag) -> (b: bool)
    ensures
        b == flags@.contains(flag),
{
    let mut i: usize = 0;
    while i < flags.len()
        invariant
            i <= flags.len(),
            forall|j: int| 0 <= j < i ==> flags@[j] != flag,
        decreases flags.len() - i,
    {
        if flags[i] == flag {
            return true;
        }
        i += 1;
    }
    false
}

// ********** SOCKET ********** //

/// The abstract state of a [`Socket`].
pub struct SocketView {
    pub latched: i32,
    pub volatile: i32,
    /// The input cell of the parent node that the socket drives.
    pub reference: usize,
    /// The callback to run with the socket's value when it changes.
    pub call: Option<usize>,
    pub flag: Seq<DrawFlag>,
    pub max: i32,
    pub min: i32,
    pub parent_ref: usize,
    pub name: Seq<char>,
}

impl SocketView {
    /// The call of the socket's callback with its value, if it has one.
    pub open spec fn call_action(self) -> Option<Action> {
        match self.call {
            Some(h) => Some(Action::Call { handle: h, value: self.value() }),
            None => None,
        }
    }

    /// The socket's value: `latched + volatile` capped at `max`, then raised
    /// to `min` when at or below it.
    pub open spec fn value(self) -> i32 {
        plugsocket::clamp(self.latched + self.volatile, self.min, self.max)
    }
}

/// A modifiable value that drives one input cell of its parent node.
pub struct Socket {
    latched: i32,
    volatile: i32,
    reference: usize,
    call: Option<usize>,
    flag: Vec<DrawFlag>,
    max: i32,
    min: i32,
    parent_ref: usize,
    name: String,
}

impl View for Socket {
    type V = SocketView;

    closed spec fn view(&self) -> SocketView {
        SocketView {
            latched: self.latched,
            volatile: self.volatile,
            reference: self.reference,
            call: self.call,
            flag: self.flag@,
            max: self.max,
            min: self.min,
            parent_ref: self.parent_ref,
            name: self.name@,
        }
    }
}

impl Socket {
    /// A socket driving input cell `reference`, bounded by `min` and `max`,
    /// with nothing latched, no flags and parent 0.
    pub fn new(reference: usize, call: Option<usize>, max: i32, min: i32, name: &str) -> (s: Socket)
        ensures
            s@ == (SocketView {
                latched: 0,
                volatile: 0,
                reference,
                call,
                flag: Seq::empty(),
                max,
                min,
                parent_ref: 0,
                name: name@,
            }),
    {
        Socket {
            latched: 0,
            volatile: 0,
            reference: reference,
            call: call,
            max: max,
            min: min,
            parent_ref: 0,
            flag: Vec::new(),
            name: name.to_owned(),
        }
    }

    pub fn set_parent(&mut self, parent: usize)
        ensures
            final(self)@ == (SocketView { parent_ref: parent, ..old(self)@ }),
    {
        self.parent_ref = parent;
    }

    pub fn add_flag(&mut self, flag: DrawFlag)
        ensures
            final(self)@ == (SocketView { flag: old(self)@.flag.push(flag), ..old(self)@ }),
    {
        self.flag.push(flag);
    }

    /// The current value; with `reset`, the volatile part is cleared
    /// afterwards.
    pub fn get(&mut self, reset: bool) -> (v: i32)
        ensures
            v == old(self)@.value(),
            final(self)@ == (if reset {
                SocketView { volatile: 0, ..old(self)@ }
            } else {
                old(self)@
            }),
    {
        let mut v: i64 = self.latched as i64 + self.volatile as i64;

        if v > self.max as i64 {
            v = self.max as i64;
        }
        if v <= self.min as i64 {
            v = self.min as i64;
        }
        if reset {
            self.volatile = 0;
        }
        v as i32
    }

    /// Drops the volatile part.
    pub fn reset(&mut self)
        ensures
            final(self)@ == (SocketView { volatile: 0, ..old(self)@ }),
    {
        self.volatile = 0;
    }

    /// Drops both the latched and the volatile part.
    pub fn hard_reset(&mut self)
        ensures
            final(self)@ == (SocketView { latched: 0, volatile: 0, ..old(self)@ }),
    {
        self.latched = 0;
        self.volatile = 0;
    }

    /// Runs the socket after it changed: writes its value into the cell of
    /// `node` it drives, adds the socket's flags that `flags` lacks to it, and
    /// returns the call of its callback, if it has one, with its value.
    pub fn run<N: Node>(&mut self, node: &mut N, flags: &mut Vec<DrawFlag>) -> (call: Option<Action>)
        requires
            old(self)@.reference < old(node).inputs().len(),
        ensures
            final(self)@ == old(self)@,
            final(node).inputs() == old(node).inputs().update(old(self)@.reference as int, old(self)@.value()),
            final(node).rest() == old(node).rest(),
            final(flags)@ == append_new(old(flags)@, old(self)@.flag),
            call == old(self)@.call_action(),
    {
        let v = self.get(false);
        node.set_input(self.reference, v);
        let call = match self.call {
            Some(h) => Some(Action::Call { handle: h, value: v }),
            None => None,
        };
        let mut i: usize = 0;
        while i < self.flag.len()
            invariant
                i <= self.flag@.len(),
                flags@ == append_new(old(flags)@, self.flag@.take(i as int)),
            decreases self.flag.len() - i,
        {
            let f = self.flag[i];
            assert(self.flag@.take(i + 1).drop_last() =~= self.flag@.take(i as int));
            if !has_flag(flags, f) {
                flags.push(f);
            }
            i += 1;
        }
        assert(self.flag@.take(self.flag@.len() as int) =~= self.flag@);
        call
    }

    pub fn set_latched(&mut self, v: i32)
        ensures
            final(self)@ == (SocketView { latched: v, ..old(self)@ }),
    {
        self.latched = v;
    }

    /// Latches `max` when `min` is latched, `min` otherwise.
    pub fn toggle_latched(&mut self)
        ensures
            final(self)@ == (SocketView {
                latched: if old(self)@.latched == old(self)@.min {
                    old(self)@.max
                } else {
                    old(self)@.min
                },
                ..old(self)@
            }),
    {
        if self.latched == self.min {
            self.latched = self.max;
        } else {
            self.latched = self.min;
        }
    }
}


// ********** NODE ********** //

/// The number of [`DrawFlag::REDRAW`] flags in `flags`.
pub open spec fn count_redraws(flags: Seq<DrawFlag>) -> nat
    decreases flags.len(),
{
    if flags.len() == 0 {
        0
    } else {
        count_redraws(flags.drop_last()) + if flags.last() == DrawFlag::REDRAW {
            1nat
        } else {
            0nat
        }
    }
}

/// A node of the graph: a row of input cells, the sockets that drive them,
/// and what the node draws.
pub trait Node: Sized {
    /// The values of the node's input cells, by slot.
    spec fn inputs(&self) -> Seq<i32>;

    /// The sockets that [`Node::get_sockets`] hands out.
    spec fn socket_views(&self) -> Seq<SocketView>;

    /// Runs once per frame, before the node is drawn; does nothing unless
    /// overridden. It keeps the number of input cells.
    fn update(&mut self, fc: i32, flags: &Vec<DrawFlag>)
        ensures
            final(self).inputs().len() == old(self).inputs().len(),
        default_ensures
            *final(self) == *old(self),
    {
    }

    /// Draws the node: the actions of one [`Node::redraw`] for each
    /// [`DrawFlag::REDRAW`] in `flags`, in order, unless overridden.
    fn draw(&self, flags: &Vec<DrawFlag>) -> (actions: Vec<Action>)
        default_ensures
            exists|parts: Seq<Vec<Action>>|
                #![trigger parts.len()]
                {
                    &&& parts.len() == count_redraws(flags@)
                    &&& forall|k: int| 0 <= k < parts.len() ==> call_ensures(Self::redraw, (self,), #[trigger] parts[k])
                    &&& actions@ == parts.map_values(|v: Vec<Action>| v@).flatten()
                },
            !flags@.contains(DrawFlag::REDRAW) ==> actions@ == Seq::<Action>::empty(),
    {
        let mut actions: Vec<Action> = Vec::new();
        let ghost mut parts: Seq<Vec<Action>> = Seq::empty();
        let mut i: usize = 0;
        while i < flags.len()
            invariant
                i <= flags@.len(),
                parts.len() == count_redraws(flags@.take(i as int)),
                forall|k: int| 0 <= k < parts.len() ==> call_ensures(Self::redraw, (self,), #[trigger] parts[k]),
                actions@ == parts.map_values(|v: Vec<Action>| v@).flatten(),
                !flags@.contains(DrawFlag::REDRAW) ==> actions@ == Seq::<Action>::empty(),
            decreases flags.len() - i,
        {
            proof {
                assert(flags@.take(i + 1).drop_last() =~= flags@.take(i as int));
                assert(flags@.take(i + 1).last() == flags@[i as int]);
            }
            match flags[i] {
                DrawFlag::REDRAW => {
                    let mut more = self.redraw();
                    proof {
                        let before = parts.map_values(|v: Vec<Action>| v@);
                        parts = parts.push(more);
                        assert(parts.map_values(|v: Vec<Action>| v@) =~= before.push(more@));
                        before.lemma_flatten_push(more@);
                    }
                    actions.append(&mut more);
                },
                _ => {},
            }
            i += 1;
        }
        proof {
            assert(flags@.take(flags@.len() as int) =~= flags@);
        }
        actions
    }

    /// What the node draws when it is asked to redraw; nothing unless
    /// overridden.
    fn redraw(&self) -> (actions: Vec<Action>)
        default_ensures
            actions@ == Seq::<Action>::empty(),
    {
        Vec::new()
    }

    /// The sockets that drive the node's input cells.
    fn get_sockets(&self) -> (sockets: Vec<Socket>)
        ensures
            sockets@.map_values(|s: Socket| s@) == self.socket_views(),
            forall|i: int| 0 <= i < sockets@.len() ==> (#[trigger] sockets@[i])@.reference < self.inputs().len(),
    ;

    /// The node with its input cells set aside: the part of its state that
    /// writing a cell leaves alone.
    spec fn rest(&self) -> Self;

    /// A node is its rest together with its input cells.
    proof fn lemma_rest_and_inputs(a: Self, b: Self)
        requires
            a.rest() == b.rest(),
            a.inputs() == b.inputs(),
        ensures
            a == b,
    ;

    /// Writes `v` into input cell `slot`, and changes nothing else.
    fn set_input(&mut self, slot: usize, v: i32)
        requires
            slot < old(self).inputs().len(),
        ensures
            final(self).inputs() == old(self).inputs().update(slot as int, v),
            final(self).rest() == old(self).rest(),
    ;
}

/// One input cell of a node.
pub struct Input {
    v: i32,
}

impl Input {
    pub closed spec fn value(&self) -> i32 {
        self.v
    }

    /// A cell holding 0.
    pub fn new() -> (i: Input)
        ensures
            i.value() == 0,
    {
        Input { v: 0 }
    }

    pub fn get(&self) -> (v: i32)
        ensures
            v == self.value(),
    {
        self.v
    }

    fn set(&mut self, v: i32)
        ensures
            final(self).value() == v,
    {
        self.v = v;
    }
}

/// The node that sets the OpenGL clear colour from its four inputs, red,
/// green, blue and alpha, each in thousandths.
pub struct GlobalGL {
    r: Input,
    g: Input,
    b: Input,
    a: Input,
}

/// A socket of [`GlobalGL`] named `name` that drives cell `reference` within
/// 0..=1000 and raises [`DrawFlag::REDRAW`].
pub open spec fn colour_socket(reference: usize, name: Seq<char>) -> SocketView {
    SocketView {
        latched: 0,
        volatile: 0,
        reference,
        call: None,
        flag: seq![DrawFlag::REDRAW],
        max: 1000,
        min: 0,
        parent_ref: 0,
        name,
    }
}

impl GlobalGL {
    /// All four components at 0.
    pub fn new() -> (g: GlobalGL)
        ensures
            g.inputs() == seq![0i32, 0i32, 0i32, 0i32],
    {
        GlobalGL { r: Input::new(), g: Input::new(), b: Input::new(), a: Input::new() }
    }

    fn colour_socket(reference: usize, name: &str) -> (s: Socket)
        ensures
            s@ == colour_socket(reference, name@),
    {
        let mut s = Socket::new(reference, None, 1000, 0, name);
        s.add_flag(DrawFlag::REDRAW);
        s
    }
}

impl Node for GlobalGL {
    closed spec fn inputs(&self) -> Seq<i32> {
        seq![self.r.value(), self.g.value(), self.b.value(), self.a.value()]
    }

    /// A `GlobalGL` holds nothing besides its four input cells.
    closed spec fn rest(&self) -> GlobalGL {
        GlobalGL { r: Input { v: 0 }, g: Input { v: 0 }, b: Input { v: 0 }, a: Input { v: 0 } }
    }

    proof fn lemma_rest_and_inputs(a: GlobalGL, b: GlobalGL) {
        assert(a.inputs()[0] == b.inputs()[0]);
        assert(a.inputs()[1] == b.inputs()[1]);
        assert(a.inputs()[2] == b.inputs()[2]);
        assert(a.inputs()[3] == b.inputs()[3]);
    }

    /// Sockets "red", "green", "blue" and "alpha"; "red" drives the red
    /// cell, and the other three all drive the green cell.
    open spec fn socket_views(&self) -> Seq<SocketView> {
        seq![
            colour_socket(0, "red"@),
            colour_socket(1, "green"@),
            colour_socket(1, "blue"@),
            colour_socket(1, "alpha"@),
        ]
    }

    /// Sets the clear colour to the four inputs.
    fn redraw(&self) -> (actions: Vec<Action>)
        ensures
            actions@ == seq![
                Action::ClearColor {
                    r: self.inputs()[0],
                    g: self.inputs()[1],
                    b: self.inputs()[2],
                    a: self.inputs()[3],
                },
            ],
    {
        let mut actions = Vec::new();
        actions.push(
            Action::ClearColor { r: self.r.get(), g: self.g.get(), b: self.b.get(), a: self.a.get() },
        );
        actions
    }

    fn get_sockets(&self) -> (sockets: Vec<Socket>) {
        let mut v: Vec<Socket> = Vec::new();
        v.push(GlobalGL::colour_socket(0, "red"));
        v.push(GlobalGL::colour_socket(1, "green"));
        v.push(GlobalGL::colour_socket(1, "blue"));
        v.push(GlobalGL::colour_socket(1, "alpha"));
        assert(v@.map_values(|s: Socket| s@) =~= self.socket_views());
        v
    }

    fn set_input(&mut self, slot: usize, v: i32) {
        if slot == 0 {
            self.r.set(v);
        } else if slot == 1 {
            self.g.set(v);
        } else if slot == 2 {
            self.b.set(v);
        } else {
            self.a.set(v);
        }
        assert(self.inputs() =~= old(self).inputs().update(slot as int, v));
    }
}


// ********** MAIN STRUCT ********** //

/// The abstract state of a [`GLMain`].
pub struct MainView<N> {
    pub sockets: Seq<SocketView>,
    pub nodes: Seq<N>,
    /// The socket indices modified so far, in order, repeats included.
    pub changebuffer: Seq<usize>,
    /// For each node, the indices of its sockets.
    pub socketparent: Seq<Seq<usize>>,
    /// For each node, the flags raised on it since it was last drawn.
    pub flags: Seq<Seq<DrawFlag>>,
    /// The number of frames drawn.
    pub fc: i32,
}

impl<N: Node> MainView<N> {
    /// The input cells of every node.
    pub open spec fn cells(self) -> Seq<Seq<i32>> {
        self.nodes.map_values(|n: N| n.inputs())
    }

    /// Socket `j` drives an existing cell of an existing node.
    pub open spec fn drives_a_cell(self, j: int) -> bool {
        let s = self.sockets[j];
        s.parent_ref < self.nodes.len() && s.reference < self.nodes[s.parent_ref as int].inputs().len()
    }

    /// The graph is well formed: every socket drives an existing cell of an
    /// existing node; the change buffer names existing sockets; the socket
    /// list of each node holds exactly the sockets whose parent it is, in
    /// increasing order (so without repeats); and no node carries a flag twice.
    pub open spec fn wf(self) -> bool {
        &&& self.socketparent.len() == self.nodes.len()
        &&& self.flags.len() == self.nodes.len()
        &&& forall|j: int| 0 <= j < self.sockets.len() ==> #[trigger] self.drives_a_cell(j)
        &&& forall|k: int|
            0 <= k < self.changebuffer.len() ==> #[trigger] self.changebuffer[k] < self.sockets.len()
        &&& forall|n: int, k: int|
            #![trigger self.socketparent[n][k]]
            0 <= n < self.nodes.len() && 0 <= k < self.socketparent[n].len() ==> {
                &&& self.socketparent[n][k] < self.sockets.len()
                &&& self.sockets[self.socketparent[n][k] as int].parent_ref == n
            }
        &&& forall|n: int, k1: int, k2: int|
            #![trigger self.socketparent[n][k1], self.socketparent[n][k2]]
            0 <= n < self.nodes.len() && 0 <= k1 < k2 < self.socketparent[n].len()
                ==> self.socketparent[n][k1] < self.socketparent[n][k2]
        &&& forall|j: int|
            0 <= j < self.sockets.len() ==> self.socketparent[(#[trigger] self.sockets[j]).parent_ref as int].contains(j as usize)
        &&& forall|n: int| 0 <= n < self.flags.len() ==> (#[trigger] self.flags[n]).no_duplicates()
    }
}

/// The socket after `modify` applies `op` with `v` to it.
pub open spec fn operate(s: SocketView, op: SocketOperation, v: i32) -> SocketView {
    match op {
        SocketOperation::SETLATCHED => SocketView { latched: v, ..s },
        SocketOperation::LATCHTOGGLE => SocketView {
            latched: if s.latched == s.min {
                s.max
            } else {
                s.min
            },
            ..s
        },
    }
}

/// The cells after the sockets listed in `order`, one after the other, have
/// each written their value into the cell they drive.
pub open spec fn write_cells(cells: Seq<Seq<i32>>, sockets: Seq<SocketView>, order: Seq<usize>) -> Seq<Seq<i32>>
    decreases order.len(),
{
    if order.len() == 0 {
        cells
    } else {
        let prev = write_cells(cells, sockets, order.drop_last());
        let s = sockets[order.last() as int];
        prev.update(s.parent_ref as int, prev[s.parent_ref as int].update(s.reference as int, s.value()))
    }
}

/// The per-node flags after the sockets listed in `order`, one after the
/// other, have each raised their flags on their parent node.
pub open spec fn raise_flags(flags: Seq<Seq<DrawFlag>>, sockets: Seq<SocketView>, order: Seq<usize>) -> Seq<Seq<DrawFlag>>
    decreases order.len(),
{
    if order.len() == 0 {
        flags
    } else {
        let prev = raise_flags(flags, sockets, order.drop_last());
        let s = sockets[order.last() as int];
        prev.update(s.parent_ref as int, append_new(prev[s.parent_ref as int], s.flag))
    }
}

/// The callbacks that the sockets listed in `order` ask for, in order: one
/// for each socket that has a callback, with the socket's value.
pub open spec fn callbacks(sockets: Seq<SocketView>, order: Seq<usize>) -> Seq<Action>
    decreases order.len(),
{
    if order.len() == 0 {
        Seq::empty()
    } else {
        let prev = callbacks(sockets, order.drop_last());
        let s = sockets[order.last() as int];
        match s.call {
            Some(h) => prev.push(Action::Call { handle: h, value: s.value() }),
            None => prev,
        }
    }
}

/// Updates `node`, and says that the node it leaves is an outcome of
/// [`Node::update`] on the node it was given.
fn update_node<N: Node>(node: &mut N, fc: i32, flags: &Vec<DrawFlag>)
    ensures
        final(node).inputs().len() == old(node).inputs().len(),
        exists|r: &mut N, v: &Vec<DrawFlag>|
            #![trigger call_ensures(N::update, (r, fc, v), ())]
            *r == *old(node) && *final(r) == *final(node) && v@ == flags@ && call_ensures(N::update, (r, fc, v), ()),
{
    node.update(fc, flags);
}

/// `actions` is what [`Node::draw`] may return when it is called on `node`
/// with `flags`.
pub open spec fn draws<N: Node>(node: N, flags: Seq<DrawFlag>, actions: Seq<Action>) -> bool {
    exists|v: &Vec<DrawFlag>, out: Vec<Action>|
        #![trigger call_ensures(N::draw, (&node, v), out)]
        v@ == flags && out@ == actions && call_ensures(N::draw, (&node, v), out)
}

/// The graph: its nodes, their sockets, and the changes waiting to be
/// applied.
pub struct GLMain<N: Node> {
    sockets: Vec<Socket>,
    nodes: Vec<N>,
    changebuffer: Vec<usize>,
    socketparent: Vec<Vec<usize>>,
    flags: Vec<Vec<DrawFlag>>,
    fc: i32,
}

impl<N: Node> View for GLMain<N> {
    type V = MainView<N>;

    closed spec fn view(&self) -> MainView<N> {
        MainView {
            sockets: self.sockets@.map_values(|s: Socket| s@),
            nodes: self.nodes@,
            changebuffer: self.changebuffer@,
            socketparent: self.socketparent@.map_values(|v: Vec<usize>| v@),
            flags: self.flags@.map_values(|v: Vec<DrawFlag>| v@),
            fc: self.fc,
        }
    }
}

impl<N: Node> GLMain<N> {
    /// An empty graph.
    pub fn new() -> (m: GLMain<N>)
        ensures
            m@.wf(),
            m@ == (MainView::<N> {
                sockets: Seq::empty(),
                nodes: Seq::empty(),
                changebuffer: Seq::empty(),
                socketparent: Seq::empty(),
                flags: Seq::empty(),
                fc: 0,
            }),
    {
        let m = GLMain {
            sockets: Vec::new(),
            nodes: Vec::new(),
            changebuffer: Vec::new(),
            flags: Vec::new(),
            socketparent: Vec::new(),
            fc: 0,
        };
        assert(m@.sockets =~= Seq::empty());
        assert(m@.socketparent =~= Seq::empty());
        assert(m@.flags =~= Seq::empty());
        m
    }

    /// Adds `node` as the last node, together with the sockets it hands out,
    /// which are appended to the sockets of the graph with the new node as
    /// their parent.
    pub fn add_node(&mut self, node: N)
        requires
            old(self)@.wf(),
        ensures
            final(self)@.wf(),
            final(self)@.nodes == old(self)@.nodes.push(node),
            final(self)@.sockets == old(self)@.sockets + node.socket_views().map_values(
                |s: SocketView| SocketView { parent_ref: old(self)@.nodes.len() as usize, ..s },
            ),
            final(self)@.socketparent == old(self)@.socketparent.push(
                Seq::new(node.socket_views().len(), |k: int| (old(self)@.sockets.len() + k) as usize),
            ),
            final(self)@.flags == old(self)@.flags.push(Seq::empty()),
            final(self)@.changebuffer == old(self)@.changebuffer,
            final(self)@.fc == old(self)@.fc,
    {
        let ghost start = self@;
        let n = self.nodes.len();
        let got = node.get_sockets();
        let ghost views = node.socket_views();
        let ghost inputs_len = node.inputs().len();
        self.nodes.push(node);
        let mut mine: Vec<usize> = Vec::new();
        for mut socket in it: got.into_iter()
            invariant
                start.wf(),
                n == start.nodes.len(),
                views == it.seq().map_values(|s: Socket| s@),
                forall|i: int| 0 <= i < it.seq().len() ==> (#[trigger] it.seq()[i])@.reference < inputs_len,
                self@.nodes == start.nodes.push(node),
                inputs_len == node.inputs().len(),
                self@.sockets == start.sockets + views.take(it.index() as int).map_values(
                    |s: SocketView| SocketView { parent_ref: n, ..s },
                ),
                mine@ == Seq::new(it.index() as nat, |k: int| (start.sockets.len() + k) as usize),
                self@.socketparent == start.socketparent,
                self@.flags == start.flags,
                self@.changebuffer == start.changebuffer,
                self@.fc == start.fc,
        {
            let ghost k = it.index() as int;
            let ghost before = self@;
            assert(socket == it.seq()[k]);
            socket.set_parent(n);
            mine.push(self.sockets.len());
            self.sockets.push(socket);
            proof {
                assert(views.take(k + 1) =~= views.take(k).push(views[k]));
                assert(self@.sockets =~= before.sockets.push(SocketView { parent_ref: n, ..views[k] }));
                assert(mine@ =~= Seq::new((k + 1) as nat, |j: int| (start.sockets.len() + j) as usize));
            }
        }
        self.socketparent.push(mine);
        self.flags.push(Vec::new());
        let total = self.sockets.len();
        proof {
            assert(views.take(views.len() as int) =~= views);
            let fin = self@;
            let old_len = start.sockets.len();
            assert(fin.socketparent[n as int] == mine@);
            assert(mine@.len() == views.len());
            assert(fin.sockets.len() == old_len + views.len());
            assert(fin.sockets.len() == total);
            assert forall|j: int| 0 <= j < fin.sockets.len() implies #[trigger] fin.drives_a_cell(j) by {
                if j < old_len {
                    assert(start.drives_a_cell(j));
                    assert(fin.sockets[j] == start.sockets[j]);
                } else {
                    assert(fin.sockets[j] == SocketView { parent_ref: n, ..views[j - old_len] });
                }
            }
            assert forall|n2: int, k: int|
                #![trigger fin.socketparent[n2][k]]
                0 <= n2 < fin.nodes.len() && 0 <= k < fin.socketparent[n2].len() implies {
                    &&& fin.socketparent[n2][k] < fin.sockets.len()
                    &&& fin.sockets[fin.socketparent[n2][k] as int].parent_ref == n2
                } by {
                if n2 < n {
                    assert(fin.socketparent[n2] == start.socketparent[n2]);
                    assert(start.socketparent[n2][k] < old_len);
                } else {
                    assert(mine@[k] == (old_len + k) as usize);
                }
            }
            assert forall|j: int| 0 <= j < fin.sockets.len() implies
                fin.socketparent[(#[trigger] fin.sockets[j]).parent_ref as int].contains(j as usize) by {
                if j < old_len {
                    assert(fin.sockets[j] == start.sockets[j]);
                    assert(start.socketparent[start.sockets[j].parent_ref as int].contains(j as usize));
                    assert(start.drives_a_cell(j));
                } else {
                    assert(fin.sockets[j].parent_ref == n);
                    assert(mine@[j - old_len] == j);
                }
            }
            assert forall|n2: int| 0 <= n2 < fin.flags.len() implies (#[trigger] fin.flags[n2]).no_duplicates() by {
                if n2 < n {
                    assert(fin.flags[n2] == start.flags[n2]);
                }
            }
        }
    }

    /// Applies the recorded changes, between frames: each socket in the change
    /// buffer, taken once in the order of its first change, writes its value
    /// into the cell it drives and raises its flags on its parent node. Returns
    /// the callbacks that these sockets ask for. The change buffer is kept.
    pub fn unwind(&mut self) -> (calls: Vec<Action>)
        requires
            old(self)@.wf(),
        ensures
            final(self)@.wf(),
            final(self)@.sockets == old(self)@.sockets,
            final(self)@.changebuffer == old(self)@.changebuffer,
            final(self)@.socketparent == old(self)@.socketparent,
            final(self)@.fc == old(self)@.fc,
            final(self)@.nodes.len() == old(self)@.nodes.len(),
            final(self)@.cells() == write_cells(
                old(self)@.cells(),
                old(self)@.sockets,
                first_occurrences(old(self)@.changebuffer),
            ),
            final(self)@.flags == raise_flags(
                old(self)@.flags,
                old(self)@.sockets,
                first_occurrences(old(self)@.changebuffer),
            ),
            calls@ == callbacks(old(self)@.sockets, first_occurrences(old(self)@.changebuffer)),
            forall|n: int|
                0 <= n < final(self)@.nodes.len() ==> (#[trigger] final(self)@.nodes[n]).rest() == old(self)@.nodes[n].rest(),
    {
        let order = unique_indices(&self.changebuffer);
        let mut calls: Vec<Action> = Vec::new();
        let ghost start = self@;
        let mut k: usize = 0;
        while k < order.len()
            invariant
                k <= order@.len(),
                order@ == first_occurrences(start.changebuffer),
                start.wf(),
                self@.wf(),
                self@.sockets == start.sockets,
                self@.changebuffer == start.changebuffer,
                self@.socketparent == start.socketparent,
                self@.fc == start.fc,
                self@.nodes.len() == start.nodes.len(),
                self@.cells() == write_cells(start.cells(), start.sockets, order@.take(k as int)),
                self@.flags == raise_flags(start.flags, start.sockets, order@.take(k as int)),
                calls@ == callbacks(start.sockets, order@.take(k as int)),
                forall|n: int| 0 <= n < self@.nodes.len() ==> (#[trigger] self@.nodes[n]).rest() == start.nodes[n].rest(),
            decreases order.len() - k,
        {
            let i = order[k];
            let ghost before = self@;
            proof {
                crate::glbaby::laws::lemma_first_occurrences(start.changebuffer, i);
                assert(order@.contains(i));
                let m = choose|m: int| 0 <= m < start.changebuffer.len() && start.changebuffer[m] == i;
                assert(start.changebuffer[m] < start.sockets.len());
                assert(order@.take(k + 1).drop_last() =~= order@.take(k as int));
                assert(order@.take(k + 1).last() == i);
                assert(self@.drives_a_cell(i as int));
            }
            let p = self.sockets[i].parent_ref;
            let r = self.sockets[i].reference;
            let ghost v = start.sockets[i as int].value();
            let call = self.sockets[i].run(&mut self.nodes[p], &mut self.flags[p]);
            if let Some(action) = call {
                calls.push(action);
            }
            proof {
                let s = start.sockets[i as int];
                assert(self@.sockets =~= before.sockets);
                assert(self@.flags =~= before.flags.update(p as int, append_new(before.flags[p as int], s.flag)));
                assert(self@.cells() =~= before.cells().update(p as int, before.cells()[p as int].update(r as int, v)));
                crate::glbaby::laws::lemma_append_new_no_duplicates(before.flags[p as int], s.flag);
                assert forall|j: int| 0 <= j < self@.sockets.len() implies #[trigger] self@.drives_a_cell(j) by {
                    assert(before.drives_a_cell(j));
                    let q = self@.sockets[j].parent_ref as int;
                    assert(self@.cells()[q].len() == self@.nodes[q].inputs().len());
                    assert(before.cells()[q].len() == before.nodes[q].inputs().len());
                }
                assert forall|n: int| 0 <= n < self@.flags.len() implies (#[trigger] self@.flags[n]).no_duplicates() by {
                    assert(before.flags[n].no_duplicates());
                }
            }
            k += 1;
        }
        proof {
            assert(order@.take(order@.len() as int) =~= order@);
        }
        calls
    }

    /// Draws a frame: applies the recorded changes (see [`GLMain::unwind`]),
    /// then, node by node in order, updates the node with the frame count and
    /// the flags raised on it and draws it with those flags; then clears the
    /// flags and counts the frame. Returns the callbacks that the changes ask
    /// for, followed by what each node draws, in node order.
    pub fn draw(&mut self) -> (actions: Vec<Action>)
        requires
            old(self)@.wf(),
            old(self)@.fc < i32::MAX,
        ensures
            final(self)@.wf(),
            final(self)@.sockets == old(self)@.sockets,
            final(self)@.changebuffer == old(self)@.changebuffer,
            final(self)@.socketparent == old(self)@.socketparent,
            final(self)@.fc == old(self)@.fc + 1,
            final(self)@.nodes.len() == old(self)@.nodes.len(),
            final(self)@.flags == Seq::new(old(self)@.nodes.len(), |n: int| Seq::<DrawFlag>::empty()),
            ({
                let order = first_occurrences(old(self)@.changebuffer);
                let raised = raise_flags(old(self)@.flags, old(self)@.sockets, order);
                exists|mid: Seq<N>, parts: Seq<Seq<Action>>|
                    #![trigger mid.len(), parts.len()]
                    {
                        &&& mid.len() == old(self)@.nodes.len()
                        &&& parts.len() == old(self)@.nodes.len()
                        &&& mid.map_values(|n: N| n.inputs()) == write_cells(old(self)@.cells(), old(self)@.sockets, order)
                        &&& forall|n: int| 0 <= n < mid.len() ==> (#[trigger] mid[n]).rest() == old(self)@.nodes[n].rest()
                        &&& forall|n: int|
                            0 <= n < mid.len() ==> exists|r: &mut N, v: &Vec<DrawFlag>|
                                #![trigger call_ensures(N::update, (r, old(self)@.fc, v), ())]
                                *r == #[trigger] mid[n] && *final(r) == final(self)@.nodes[n] && v@ == raised[n]
                                    && call_ensures(N::update, (r, old(self)@.fc, v), ())
                        &&& forall|n: int|
                            0 <= n < mid.len() ==> draws(final(self)@.nodes[n], raised[n], #[trigger] parts[n])
                        &&& actions@ == callbacks(old(self)@.sockets, order) + parts.flatten()
                    }
            }),
    {
        let ghost first = self@;
        let mut actions = self.unwind();
        let ghost calls = actions@;
        let ghost start = self@;
        let ghost mut parts: Seq<Seq<Action>> = Seq::empty();
        let mut i: usize = 0;
        while i < self.nodes.len()
            invariant
                i <= self@.nodes.len(),
                start.wf(),
                self@.sockets == start.sockets,
                self@.changebuffer == start.changebuffer,
                self@.socketparent == start.socketparent,
                self@.fc == start.fc,
                self@.nodes.len() == start.nodes.len(),
                self@.flags.len() == start.flags.len(),
                forall|n: int| 0 <= n < self@.nodes.len() ==>
                    (#[trigger] self@.nodes[n]).inputs().len() == start.nodes[n].inputs().len(),
                forall|n: int| 0 <= n < i ==> (#[trigger] self@.flags[n]) == Seq::<DrawFlag>::empty(),
                forall|n: int| i <= n < self@.flags.len() ==> (#[trigger] self@.flags[n]) == start.flags[n],
                forall|n: int| i <= n < self@.nodes.len() ==> (#[trigger] self@.nodes[n]) == start.nodes[n],
                parts.len() == i,
                forall|n: int| 0 <= n < i ==> exists|r: &mut N, v: &Vec<DrawFlag>|
                    #![trigger call_ensures(N::update, (r, start.fc, v), ())]
                    *r == #[trigger] start.nodes[n] && *final(r) == self@.nodes[n] && v@ == start.flags[n]
                        && call_ensures(N::update, (r, start.fc, v), ()),
                forall|n: int| 0 <= n < i ==> draws(self@.nodes[n], start.flags[n], #[trigger] parts[n]),
                actions@ == calls + parts.flatten(),
            decreases self@.nodes.len() - i,
        {
            let ghost before = self@;
            let fc = self.fc;
            update_node(&mut self.nodes[i], fc, &self.flags[i]);
            let node_i = &self.nodes[i];
            let flags_i = &self.flags[i];
            let mut drawn = node_i.draw(flags_i);
            proof {
                assert(self@.flags[i as int] == start.flags[i as int]);
                assert(flags_i@ == start.flags[i as int]);
                assert(call_ensures(N::draw, (&self@.nodes[i as int], flags_i), drawn));
                assert(draws(self@.nodes[i as int], start.flags[i as int], drawn@));
                parts.lemma_flatten_push(drawn@);
                parts = parts.push(drawn@);
            }
            actions.append(&mut drawn);
            self.flags[i] = Vec::new();
            proof {
                assert(self@.flags =~= before.flags.update(i as int, Seq::<DrawFlag>::empty()));
                assert(self@.sockets =~= before.sockets);
            }
            i += 1;
        }
        self.fc += 1;
        proof {
            assert(self@.flags =~= Seq::new(start.nodes.len(), |n: int| Seq::<DrawFlag>::empty()));
            assert forall|j: int| 0 <= j < self@.sockets.len() implies #[trigger] self@.drives_a_cell(j) by {
                assert(start.drives_a_cell(j));
            }
            assert forall|n: int| 0 <= n < self@.flags.len() implies (#[trigger] self@.flags[n]).no_duplicates() by {
                assert(self@.flags[n] == Seq::<DrawFlag>::empty());
            }
            assert(start.nodes.map_values(|n: N| n.inputs()) == start.cells());
        }
        actions
    }

    /// The names of the sockets of each node, node by node, in the order in
    /// which the node handed them out.
    pub fn structure(&self) -> (names: Vec<Vec<String>>)
        requires
            self@.wf(),
        ensures
            names@.len() == self@.nodes.len(),
            forall|n: int| 0 <= n < names@.len() ==> (#[trigger] names@[n])@.len() == self@.socketparent[n].len(),
            forall|n: int, k: int|
                0 <= n < names@.len() && 0 <= k < names@[n]@.len() ==> (#[trigger] names@[n]@[k])@
                    == self@.sockets[self@.socketparent[n][k] as int].name,
    {
        let mut names: Vec<Vec<String>> = Vec::new();
        let mut i: usize = 0;
        while i < self.nodes.len()
            invariant
                self@.wf(),
                i <= self@.nodes.len(),
                names@.len() == i,
                forall|n: int| 0 <= n < i ==> (#[trigger] names@[n])@.len() == self@.socketparent[n].len(),
                forall|n: int, k: int|
                    0 <= n < i && 0 <= k < names@[n]@.len() ==> (#[trigger] names@[n]@[k])@
                        == self@.sockets[self@.socketparent[n][k] as int].name,
            decreases self@.nodes.len() - i,
        {
            let mut row: Vec<String> = Vec::new();
            let mut k: usize = 0;
            while k < self.socketparent[i].len()
                invariant
                    self@.wf(),
                    i < self@.nodes.len(),
                    k <= self@.socketparent[i as int].len(),
                    row@.len() == k,
                    forall|m: int| 0 <= m < k ==> (#[trigger] row@[m])@
                        == self@.sockets[self@.socketparent[i as int][m] as int].name,
                decreases self@.socketparent[i as int].len() - k,
            {
                let j = self.socketparent[i][k];
                assert(self@.socketparent[i as int][k as int] < self@.sockets.len());
                row.push(self.sockets[j].name.clone());
                k += 1;
            }
            names.push(row);
            i += 1;
        }
        names
    }

    /// The number of frames drawn.
    pub fn frame_count(&self) -> (fc: i32)
        ensures
            fc == self@.fc,
    {
        self.fc
    }

    /// The number of sockets of all nodes together.
    pub fn socket_count(&self) -> (n: usize)
        ensures
            n == self@.sockets.len(),
    {
        self.sockets.len()
    }

    /// The flags raised on node `n` since it was last drawn.
    pub fn flags(&self, n: usize) -> (flags: &Vec<DrawFlag>)
        requires
            self@.wf(),
            n < self@.nodes.len(),
        ensures
            flags@ == self@.flags[n as int],
    {
        &self.flags[n]
    }

    /// Changes socket `socket_index` by `operation` and records the change,
    /// to be applied by the next [`GLMain::unwind`].
    pub fn modify(&mut self, socket_index: usize, operation: SocketOperation, v: i32)
        requires
            old(self)@.wf(),
            socket_index < old(self)@.sockets.len(),
        ensures
            final(self)@.wf(),
            final(self)@ == (MainView {
                sockets: old(self)@.sockets.update(
                    socket_index as int,
                    operate(old(self)@.sockets[socket_index as int], operation, v),
                ),
                changebuffer: old(self)@.changebuffer.push(socket_index),
                ..old(self)@
            }),
    {
        match operation {
            SocketOperation::SETLATCHED => self.sockets[socket_index].set_latched(v),
            SocketOperation::LATCHTOGGLE => self.sockets[socket_index].toggle_latched(),
        };
        self.changebuffer.push(socket_index);
        assert(self@.sockets =~= old(self)@.sockets.update(
            socket_index as int,
            operate(old(self)@.sockets[socket_index as int], operation, v),
        ));
        assert forall|j: int| 0 <= j < self@.sockets.len() implies #[trigger] self@.drives_a_cell(j) by {
            assert(old(self)@.drives_a_cell(j));
        }
        assert forall|j: int| 0 <= j < self@.sockets.len() implies
            self@.socketparent[(#[trigger] self@.sockets[j]).parent_ref as int].contains(j as usize) by {
            assert(old(self)@.sockets[j].parent_ref == self@.sockets[j].parent_ref);
        }
    }
}

} // verus!
