# lambda_factory

A puzzle game about the lambda calculus: combinator boxes (S, K, I, B, C, W,
Y and random constants) come out of factories; dropping one box on another
applies it, and a right click reduces a box by one step. Each box shows its
term printed and drawn as a block layout on a grid turned by 45 degrees.

The game's logic is a library verified with Verus (`src/`):

- `term`: the terms (de Bruijn indices, with primary and borrowed
  occurrences of a variable and frozen copies), substitution, one-step and
  full reduction;
- `lambda`: `LambdaBox`, a term with its constants; the combinator
  factories, application, abstraction over a variable, reduction;
- `laws`: each combinator reduces as its defining equation says;
- `show`: the printed form of a term;
- `colmap`, `mino`, `placement`: the block layout of a term, and what holds
  of every layout (it fits a box of the term's size, keys are distinct,
  variables are linked to their abstractions);
- `constants`: constants named by one character, among them the random one;
- `board`: boxes, factories and the board, with the effect of each mouse
  action;
- `helper`: the four grid directions.

`app/` holds the window, the mouse and the drawing (raylib).

Limits of the model:

- A reference (`LambdaRef`) names a variable by its id, and ids are
  numbered within a box: boxes made apart number from the same start, so a
  reference taken from one box may name an unrelated variable or binder of
  another. Only variables can be referenced and abstracted; `abstr` never
  moves a constant or an application out of a term.
- The board has factories for S, K, I, Y, B, C, W, the random constant and
  the trash bin. Boxes labelled FALSE/0, SUCCESSOR, PLUS, PREDECESSOR,
  IS ZERO? and FOLD are not offered: the terms behind those labels are not
  defined anywhere to build them from.
- A box is drawn only up to a size at which the layout's `i32` arithmetic is
  proven not to overflow, and printed while its numbering fits an `i32`.
