//! A small node graph for driving OpenGL state: nodes expose sockets, sockets
//! are modified between frames, and each frame the changed sockets write their
//! values into the nodes' inputs and raise drawing flags on them.
pub mod glbaby;
