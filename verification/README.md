# glbaby

A small node graph for driving OpenGL state, verified with Verus.

- `src/glbaby.rs`: nodes, their input cells and the sockets that drive them;
  `GLMain` applies socket changes between frames and draws the nodes, and
  returns what has to reach the outside world (callbacks, the OpenGL clear
  colour) as a list of `Action`s.
- `src/glbaby/plugsocket.rs`: plugs, which write a value into a socket either
  as its latched value or as an addition to its volatile value.
- `src/glbaby/laws.rs`: properties that span several calls, such as a latched
  value reaching the cell its socket drives, and applying changes twice
  being the same as applying them once.
- `app/lib.rs`: the host side: runs callbacks, calls OpenGL, prints the graph.
