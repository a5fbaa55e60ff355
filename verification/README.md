# snaek

A multiplayer snake game over UDP. `src/` is the verified library with the
rules of the game, `app/` the program around it: sockets, JSON, the terminal
and the command line.

- `grid`: the world as rows of characters
- `snaek`: a player; directions, and death
- `arena`: the world and its players together; what one tick does to them
- `update`: the tick
- `refill`: new fruits once there are none
- `laws`, `laws_world`: what holds while everybody moves
- `laws_turn`: what holds of every tick as a whole
- `chance`: random draws and random symbols
- `init`: the start of a round
- `laws_round`: what a round takes over from the last one
- `packet`, `peers`, `screen`: packets, addresses, and the text on the screen
- `server`: the game loop, and the invariant that every step of it keeps
