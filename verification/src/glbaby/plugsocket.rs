//! Plugs and the sockets they feed.
//!
//! A socket holds a latched value, which stays until it is changed, and a
//! volatile value, which is added on top of it and meant to last one frame
//! (nothing here clears it on its own: `get` with `reset`, or `clear`, does). A plug
//! carries one value and writes it into the socket it is attached to, either
//! as the new latched value or as an addition to the volatile value.
use vstd::prelude::*;

verus! {

/// The abstract state of a [`Socket`].
pub struct SocketView {
    pub latched: i32,
    pub volatile: i32,
    pub min: i32,
    pub max: i32,
    pub scale: i32,
}

/// The socket's current value: `latched + volatile`, first capped at `max`,
/// then raised to `min` when it is at or below `min` (so `min` wins when
/// `max < min`).
pub open spec fn clamp(v: int, min: i32, max: i32) -> i32 {
    if v > max {
        if max <= min {
            min
        } else {
            max
        }
    } else if v <= min {
        min
    } else {
        v as i32
    }
}

impl SocketView {
    pub open spec fn value(self) -> i32 {
        clamp(self.latched + self.volatile, self.min, self.max)
    }
}

/// A value slot that plugs write into.
#[derive(Clone, Debug)]
pub struct Socket {
    latched: i32,
    volatile: i32,
    min: i32,
    max: i32,
    scale: i32,
}

impl View for Socket {
    type V = SocketView;

    closed spec fn view(&self) -> SocketView {
        SocketView {
            latched: self.latched,
            volatile: self.volatile,
            min: self.min,
            max: self.max,
            scale: self.scale,
        }
    }
}

impl Socket {
    /// A socket with nothing latched and nothing volatile, bounded by
    /// `min` and `max`.
    pub fn new(min: i32, max: i32, scale: i32) -> (s: Socket)
        ensures
            s@ == (SocketView { latched: 0, volatile: 0, min, max, scale }),
    {
        Socket { latched: 0, volatile: 0, min, max, scale }
    }

    /// The current value of the socket; with `reset`, the volatile part is
    /// cleared afterwards.
    pub fn get(&mut self, reset: bool) -> (v: i32)
        requires
            i32::MIN <= old(self)@.latched + old(self)@.volatile <= i32::MAX,
        ensures
            v == old(self)@.value(),
            final(self)@ == (if reset {
                SocketView { volatile: 0, ..old(self)@ }
            } else {
                old(self)@
            }),
    {
        let mut v = self.latched + self.volatile;

        if v > self.max {
            v = self.max;
        }
        if v <= self.min {
            v = self.min;
        }
        if reset {
            self.clear();
        }
        v
    }

    /// Drops the volatile part.
    pub fn clear(&mut self)
        ensures
            final(self)@ == (SocketView { volatile: 0, ..old(self)@ }),
    {
        self.volatile = 0
    }

    /// Sets the latched value, which stays until it is changed.
    pub fn set_latched(&mut self, v: i32)
        ensures
            final(self)@ == (SocketView { latched: v, ..old(self)@ }),
    {
        self.latched = v;
    }

    /// Adds to the volatile value, which `clear` or `get` with `reset` drops.
    pub fn add_volatile(&mut self, v: i32)
        requires
            i32::MIN <= old(self)@.volatile + v <= i32::MAX,
        ensures
            final(self)@ == (SocketView { volatile: (old(self)@.volatile + v) as i32, ..old(self)@ }),
    {
        self.volatile += v;
    }
}

/// How a plug writes its value into its socket.
#[derive(PartialEq, Eq, Structural, Clone, Copy, Debug)]
pub enum Operation {
    SETLATCH,
    ADDVOLATILE,
}

/// The abstract state of a [`Plug`].
pub struct PlugView {
    pub socket: Option<SocketView>,
    pub operation: Operation,
    pub priority: u8,
    pub value: i32,
}

/// The socket state after `op` writes `value` into `s`.
pub open spec fn written(s: SocketView, op: Operation, value: i32) -> SocketView {
    match op {
        Operation::SETLATCH => SocketView { latched: value, ..s },
        Operation::ADDVOLATILE => SocketView { volatile: (s.volatile + value) as i32, ..s },
    }
}

/// Whether `write` can carry `op` out on `s` without overflow.
pub open spec fn can_write(s: SocketView, op: Operation, value: i32) -> bool {
    op == Operation::ADDVOLATILE ==> i32::MIN <= s.volatile + value <= i32::MAX
}

/// A value on its way into a socket.
pub struct Plug {
    socket: Option<Box<Socket>>,
    operation: Operation,
    priority: u8,
    value: i32,
}

impl View for Plug {
    type V = PlugView;

    closed spec fn view(&self) -> PlugView {
        PlugView {
            socket: match self.socket {
                Some(s) => Some(s@),
                None => None,
            },
            operation: self.operation,
            priority: self.priority,
            value: self.value,
        }
    }
}

impl Plug {
    /// A plug attached to `socket`, if any, carrying `value`.
    pub fn new(socket: Option<Socket>, operation: Operation, priority: u8, value: i32) -> (p: Plug)
        ensures
            p@ == (PlugView {
                socket: match socket {
                    Some(s) => Some(s@),
                    None => None,
                },
                operation,
                priority,
                value,
            }),
    {
        let socket = match socket {
            Some(s) => Some(Box::new(s)),
            None => None,
        };
        Plug { socket, operation, priority, value }
    }

    /// Whether the plug is attached to a socket.
    #[allow(non_snake_case)]
    pub fn isActive(&self) -> (b: bool)
        ensures
            b == self@.socket is Some,
    {
        match self.socket {
            Some(_) => true,
            None => false,
        }
    }

    /// Sets the value the plug carries.
    pub fn set(&mut self, v: i32)
        ensures
            final(self)@ == (PlugView { value: v, ..old(self)@ }),
    {
        self.value = v;
    }

    /// Writes the plug's value into its socket by the plug's operation; a plug
    /// with no socket is left as it is.
    pub fn write(&mut self)
        requires
            old(self)@.socket matches Some(s) ==> can_write(s, old(self)@.operation, old(self)@.value),
        ensures
            final(self)@ == (PlugView {
                socket: match old(self)@.socket {
                    Some(s) => Some(written(s, old(self)@.operation, old(self)@.value)),
                    None => None,
                },
                ..old(self)@
            }),
    {
        if let Some(mut s) = self.socket.take() {
            match self.operation {
                Operation::SETLATCH => s.set_latched(self.value),
                Operation::ADDVOLATILE => s.add_volatile(self.value),
            };
            self.socket = Some(s);
        }
    }

    /// The socket the plug is attached to, if any.
    pub fn socket(&self) -> (s: Option<&Socket>)
        ensures
            match s {
                Some(s) => self@.socket == Some(s@),
                None => self@.socket is None,
            },
    {
        match &self.socket {
            Some(s) => Some(&**s),
            None => None,
        }
    }
}

} // verus!
