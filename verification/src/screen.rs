//! What the player sees.

use vstd::prelude::*;
#[allow(unused_imports)]
use crate::grid::grid;

verus! {

/// `String::push`: the text with one more character at its end.
pub assume_specification[ String::push ](s: &mut String, ch: char)
    ensures
        final(s)@ == old(s)@.push(ch),
;

/// `termion::clear::All` as text: the control sequence `ESC [ 2 J`, which
/// clears the whole terminal.
#[verifier::external_body]
fn clear_screen() -> (text: String)
    ensures
        text@ == seq!['\u{1b}', '[', '2', 'J'],
{
    format!("{}", termion::clear::All)
}

/// The rows, each with a carriage return and a newline after it.
pub open spec fn lines(g: Seq<Seq<char>>) -> Seq<char>
    decreases g.len(),
{
    if g.len() == 0 {
        Seq::empty()
    } else {
        lines(g.drop_last()) + g.last() + seq!['\r', '\n']
    }
}

/// The text that shows the world: it clears the terminal and then has one
/// line for each row.
pub fn render_world(v: &Vec<Vec<char>>) -> (text: String)
    ensures
        text@ == seq!['\u{1b}', '[', '2', 'J'] + lines(grid(v@)),
{
    let mut text: String = clear_screen();
    let ghost g = grid(v@);
    let ghost start = text@;
    assert(g.take(0) =~= Seq::<Seq<char>>::empty());
    assert(text@ =~= start + lines(g.take(0)));
    for y in 0..v.len()
        invariant
            g == grid(v@),
            text@ == start + lines(g.take(y as int)),
    {
        let ghost above = text@;
        let n: usize = v[y].len();
        assert(g[y as int].take(0) =~= Seq::<char>::empty());
        for x in 0..n
            invariant
                y < v@.len(),
                n == v@[y as int]@.len(),
                g == grid(v@),
                text@ == above + g[y as int].take(x as int),
        {
            text.push(v[y][x]);
            assert(g[y as int].take(x + 1) =~= g[y as int].take(x as int).push(
                v@[y as int]@[x as int],
            ));
        }
        text.push('\r');
        text.push('\n');
        proof {
            assert(g[y as int].take(n as int) =~= g[y as int]);
            assert(g.take(y + 1).drop_last() =~= g.take(y as int));
            assert(g.take(y + 1).last() == g[y as int]);
            assert(text@ =~= start + lines(g.take(y + 1)));
        }
    }
    assert(g.take(g.len() as int) =~= g);
    text
}

/// How many characters stand before the line of row `y`, when every row above
/// it has a line of its squares and two more characters.
pub open spec fn line_start(g: Seq<Seq<char>>, y: int) -> int
    decreases y,
{
    if y <= 0 {
        0
    } else {
        line_start(g, y - 1) + g[y - 1].len() + 2
    }
}

/// The rows above a row take as much room whether or not others follow.
proof fn lemma_line_start(g: Seq<Seq<char>>, y: int)
    requires
        0 <= y < g.len(),
    ensures
        line_start(g.drop_last(), y) == line_start(g, y),
        0 <= line_start(g, y),
    decreases y,
{
    if y > 0 {
        lemma_line_start(g, y - 1);
    }
}

/// The lines hold every square of every row in its place, and a carriage
/// return and a newline behind the last square of each row, and nothing else.
pub proof fn law_lines_hold_every_square(g: Seq<Seq<char>>)
    ensures
        lines(g).len() == line_start(g, g.len() as int),
        forall|x: int, y: int|
            #![trigger g[y][x]]
            0 <= y < g.len() && 0 <= x < g[y].len() ==> 0 <= line_start(g, y) + x < lines(g).len()
                && lines(g)[line_start(g, y) + x] == g[y][x],
        forall|y: int|
            #![trigger g[y]]
            0 <= y < g.len() ==> {
                let end = line_start(g, y) + g[y].len();
                &&& 0 <= end && end + 1 < lines(g).len()
                &&& lines(g)[end] == '\r'
                &&& lines(g)[end + 1] == '\n'
            },
    decreases g.len(),
{
    if g.len() > 0 {
        let f = g.drop_last();
        let n = g.len() - 1;
        law_lines_hold_every_square(f);
        lemma_line_start(g, n);
        let above = lines(f);
        assert(above.len() == line_start(g, n));
        assert(lines(g) == above + g.last() + seq!['\r', '\n']);
        assert forall|x: int, y: int|
            #![trigger g[y][x]]
            0 <= y < g.len() && 0 <= x < g[y].len() implies 0 <= line_start(g, y) + x < lines(
            g,
        ).len() && lines(g)[line_start(g, y) + x] == g[y][x] by {
            lemma_line_start(g, y);
            if y < n {
                assert(f[y][x] == g[y][x]);
            }
        }
        assert forall|y: int|
            #![trigger g[y]]
            0 <= y < g.len() implies {
            let end = line_start(g, y) + g[y].len();
            &&& 0 <= end && end + 1 < lines(g).len()
            &&& lines(g)[end] == '\r'
            &&& lines(g)[end + 1] == '\n'
        } by {
            lemma_line_start(g, y);
            if y < n {
                assert(f[y] == g[y]);
            }
        }
    }
}

/// Where all rows are `w` squares long, the lines are `w + 2` characters each,
/// and column `x` of row `y` stands at its place in them.
pub proof fn law_even_lines(g: Seq<Seq<char>>, w: int)
    requires
        forall|y: int| 0 <= y < g.len() ==> #[trigger] g[y].len() == w,
    ensures
        lines(g).len() == g.len() * (w + 2),
        forall|x: int, y: int|
            #![trigger g[y][x]]
            0 <= y < g.len() && 0 <= x < w ==> lines(g)[y * (w + 2) + x] == g[y][x],
{
    law_lines_hold_every_square(g);
    lemma_even_line_start(g, w, g.len() as int);
    assert forall|x: int, y: int|
        #![trigger g[y][x]]
        0 <= y < g.len() && 0 <= x < w implies lines(g)[y * (w + 2) + x] == g[y][x] by {
        assert(g[y].len() == w);
        lemma_even_line_start(g, w, y);
    }
}

/// Where all rows are equally long, so are the lines.
proof fn lemma_even_line_start(g: Seq<Seq<char>>, w: int, y: int)
    requires
        forall|i: int| 0 <= i < g.len() ==> #[trigger] g[i].len() == w,
        0 <= y <= g.len(),
    ensures
        line_start(g, y) == y * (w + 2),
    decreases y,
{
    if y > 0 {
        lemma_even_line_start(g, w, y - 1);
        assert(g[y - 1].len() == w);
        assert(y * (w + 2) == (y - 1) * (w + 2) + w + 2) by (nonlinear_arith);
    } else {
        assert(y * (w + 2) == 0) by (nonlinear_arith)
            requires
                y == 0,
        ;
    }
}

/// The address with the port behind it, set off by a colon.
pub fn full_address(address: &str, port: &str) -> (full: String)
    ensures
        full@ == address@.push(':') + port@,
{
    let mut full: String = address.to_owned();
    full.push(':');
    full.append(port);
    full
}

} // verus!
