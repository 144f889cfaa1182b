# lungbreak

The rules of a brick breaker played on a pair of lungs, written in Verus. Every
function has a contract that says exactly what it does, and the laws of the game
are proved from those contracts.

- `single`, `angle`: single-precision numbers worked in integers, bit for bit,
  and the sine and cosine of the angles at which the paddle returns the ball.
- `lung`, `board`, `merge`: the silhouette and the airways, the grid of blocks,
  and the patches that merge into sacs.
- `motion`, `impact`, `trace`: how the ball bounces, what it meets next, and
  where it will go.
- `kind`, `rng`: what falls, how often, and the generator that decides.
- `scene`: what is drawn.
- `world`: a game as a mathematical value, and what each event makes of it.
- `game`, `handle`: the game itself, and what a page asks of it.

The laws:

- `laws`: what every event keeps. The board only empties, an end is for good, and
  pickups do what they say.
- `anatomy`, `mirror`, `collapse`: what a fresh pair of lungs looks like, cell by
  cell, how the two mirror each other, and how a lobe collapses.
- `distance`: the distance to a segment is never under zero, and no more than that
  to an end.
- `circle`, `speed`: sine and cosine lie on the unit circle, and so the paddle
  keeps the speed of the ball, but for three parts in a million of its square.
- `walls`, `pleura`: a tick leaves the ball between the walls, exactly at the
  speed of the game, and within half a pixel at any speed up to a dozen times
  that.
- `history`: from the serve on, drawn or not. The count and the damage are right
  whatever happens, and the ball is between the walls for the first eleven thousand
  returns from the paddle.
- `rally`: a paddle that is kept under the ball does not lose it, over as many
  ticks.
- `xray`: the drawn path is where the ball goes within a tick, until the paddle or
  the floor has a say; and where a tick ends at a corner of it, the next path is
  the rest of the old one.
- `trail`: the dots along the path are fifteen pixels apart, in a rhythm that goes
  on through each bounce.
- `interval`, `margin`, `reach`, `lobes`: what rounding takes, for the others.

`app/` binds the game to JavaScript and uploads each frame to WebGL.
