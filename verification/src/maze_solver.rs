//! A way through a maze of cells, some of which are walls, found depth
//! first.
use crate::paths::{lemma_mark_seen, lemma_marks_stay, unseen_count};
use vstd::prelude::*;

verus! {

/// A cell of the maze: column `x` of row `y`.
#[derive(Clone, PartialEq, Eq, Debug)]
pub struct Point {
    pub x: usize,
    pub y: usize,
}

/// Why no way through a maze was found.
#[derive(Debug)]
pub enum Error {
    NoSolution,
    InvalidMaze,
    OutOfBounds,
    OnWall,
    AlreadySeen,
}

/// Whether the two texts are made of the same characters.
fn same_text(a: &str, b: &str) -> (same: bool)
    ensures
        same == (a@ == b@),
{
    let left = a.to_owned();
    let right = b.to_owned();
    left == right
}

/// No row is shorter than the first one.
pub open spec fn rows_fit(maze: Seq<Vec<&str>>) -> bool {
    forall|y: int| 0 <= y < maze.len() ==> (#[trigger] maze[y])@.len() >= maze[0]@.len()
}

/// `p` is a cell of the maze, within the width of the first row, and no
/// wall.
pub open spec fn is_free(maze: Seq<Vec<&str>>, wall: &str, p: Point) -> bool {
    &&& p.y < maze.len()
    &&& p.x < maze[0]@.len()
    &&& maze[p.y as int]@[p.x as int]@ != wall@
}

/// `b` is the cell above, below, left or right of `a`.
pub open spec fn is_step(a: Point, b: Point) -> bool {
    ||| a.x == b.x && a.y + 1 == b.y
    ||| a.x == b.x && b.y + 1 == a.y
    ||| a.y == b.y && a.x + 1 == b.x
    ||| a.y == b.y && b.x + 1 == a.x
}

/// `path` leads from `start` to `end`, cell by cell, over no wall.
pub open spec fn is_route(
    maze: Seq<Vec<&str>>,
    wall: &str,
    path: Seq<Point>,
    start: Point,
    end: Point,
) -> bool {
    &&& path.len() > 0
    &&& path[0] == start
    &&& path.last() == end
    &&& forall|i: int| 0 <= i < path.len() ==> is_free(maze, wall, #[trigger] path[i])
    &&& forall|i: int| 0 <= i < path.len() - 1 ==> is_step(#[trigger] path[i], path[i + 1])
}

/// Some way leads from `start` to `end`, cell by cell, over no wall.
pub open spec fn solvable(maze: Seq<Vec<&str>>, wall: &str, start: Point, end: Point) -> bool {
    exists|path: Seq<Point>| is_route(maze, wall, path, start, end)
}

/// The neighbour of `p` in the direction of this number: 0 is below, 1
/// right, 2 above, 3 left. Nothing where that has no cell.
pub open spec fn neighbour_of(p: Point, direction: int) -> Option<Point> {
    if direction == 0 {
        Some(Point { x: p.x, y: (p.y + 1) as usize })
    } else if direction == 1 {
        Some(Point { x: (p.x + 1) as usize, y: p.y })
    } else if direction == 2 {
        if p.y > 0 {
            Some(Point { x: p.x, y: (p.y - 1) as usize })
        } else {
            None
        }
    } else {
        if p.x > 0 {
            Some(Point { x: (p.x - 1) as usize, y: p.y })
        } else {
            None
        }
    }
}

/// What the search from `curr` comes to, depth first, over the free cells
/// that are not marked: whether it finds `end`, the way from `curr` to it,
/// and the marks that it leaves. It looks below first, then right, above and
/// left. Each cell that it marks costs one of `fuel`, of which a search
/// needs no more than the maze has cells.
pub open spec fn route_from(
    maze: Seq<Vec<&str>>,
    wall: &str,
    curr: Point,
    end: Point,
    marks: Seq<Seq<bool>>,
    fuel: nat,
) -> (bool, Seq<Point>, Seq<Seq<bool>>)
    decreases fuel, 0int,
{
    if !is_free(maze, wall, curr) {
        (false, Seq::empty(), marks)
    } else if curr == end {
        (true, seq![end], marks)
    } else if marks[curr.y as int][curr.x as int] || fuel == 0 {
        (false, Seq::empty(), marks)
    } else {
        let marked = marks.update(curr.y as int, marks[curr.y as int].update(curr.x as int, true));
        let (found, way, after) = route_steps(maze, wall, curr, 0, end, marked, (fuel - 1) as nat);
        (
            found,
            if found {
                seq![curr] + way
            } else {
                Seq::empty()
            },
            after,
        )
    }
}

/// What the search comes to from the neighbours of `curr`, taken in their
/// order from the direction of this number on, each only where the one
/// before found nothing.
pub open spec fn route_steps(
    maze: Seq<Vec<&str>>,
    wall: &str,
    curr: Point,
    direction: int,
    end: Point,
    marks: Seq<Seq<bool>>,
    fuel: nat,
) -> (bool, Seq<Point>, Seq<Seq<bool>>)
    decreases fuel, 5 - direction,
{
    if direction < 0 || direction >= 4 {
        (false, Seq::empty(), marks)
    } else {
        match neighbour_of(curr, direction) {
            None => route_steps(maze, wall, curr, direction + 1, end, marks, fuel),
            Some(next) => {
                let (found, way, after) = route_from(maze, wall, next, end, marks, fuel);
                if found {
                    (true, way, after)
                } else {
                    route_steps(maze, wall, curr, direction + 1, end, after, fuel)
                }
            },
        }
    }
}

/// Marks for the cells of the maze, none of them set.
pub open spec fn blank_marks(maze: Seq<Vec<&str>>) -> Seq<Seq<bool>> {
    Seq::new(maze.len(), |y: int| Seq::new(maze[y]@.len(), |x: int| false))
}

/// The number of cells of the maze.
pub open spec fn cell_count(maze: Seq<Vec<&str>>) -> nat
    decreases maze.len(),
{
    if maze.len() == 0 {
        0
    } else {
        cell_count(maze.drop_last()) + maze.last()@.len()
    }
}

/// What the search from `start` comes to on a maze of which no cell is
/// marked yet: whether it finds `end`, the way that it finds, and the marks
/// that it leaves.
pub open spec fn first_route(maze: Seq<Vec<&str>>, wall: &str, start: Point, end: Point) -> (
    bool,
    Seq<Point>,
    Seq<Seq<bool>>,
) {
    route_from(maze, wall, start, end, blank_marks(maze), cell_count(maze))
}

/// The marks of the rows, as sequences.
spec fn marks_of(seen: Seq<Vec<bool>>) -> Seq<Seq<bool>> {
    Seq::new(seen.len(), |y: int| seen[y]@)
}

/// Marks of which none is set leave as many cells unmarked as the maze has,
/// where they have the shape of the maze.
proof fn lemma_blank_count(maze: Seq<Vec<&str>>, seen: Seq<Vec<bool>>)
    requires
        seen.len() == maze.len(),
        forall|y: int| 0 <= y < seen.len() ==> (#[trigger] seen[y])@.len() == maze[y]@.len(),
    ensures
        unseen_cells(seen) <= cell_count(maze),
    decreases maze.len(),
{
    if maze.len() > 0 {
        let last = maze.len() - 1;
        assert(seen[last]@.len() == maze[last]@.len());
        crate::paths::lemma_unseen_count_bound(seen.last()@);
        assert forall|y: int| 0 <= y < last implies (#[trigger] seen.drop_last()[y])@.len()
            == maze.drop_last()[y]@.len() by {
            assert(seen[y]@.len() == maze[y]@.len());
        }
        lemma_blank_count(maze.drop_last(), seen.drop_last());
    }
}

/// The cell `p` is marked.
spec fn is_seen(seen: Seq<Vec<bool>>, p: Point) -> bool {
    &&& p.y < seen.len()
    &&& p.x < seen[p.y as int]@.len()
    &&& seen[p.y as int]@[p.x as int]
}

/// Every marked cell is free and is not `end`, and from a marked cell that
/// is not on `stack` every step to a free cell leads to a marked cell.
spec fn explored(
    maze: Seq<Vec<&str>>,
    wall: &str,
    end: Point,
    seen: Seq<Vec<bool>>,
    stack: Seq<Point>,
) -> bool {
    &&& forall|p: Point| #[trigger] is_seen(seen, p) ==> is_free(maze, wall, p) && p != end
    &&& forall|p: Point, q: Point|
        is_seen(seen, p) && !stack.contains(p) && #[trigger] is_step(p, q) && is_free(
            maze,
            wall,
            q,
        ) ==> is_seen(seen, q)
}

/// The marks are explored, and the stack holds marked cells only, each
/// once.
spec fn tidy(
    maze: Seq<Vec<&str>>,
    wall: &str,
    end: Point,
    seen: Seq<Vec<bool>>,
    stack: Seq<Point>,
) -> bool {
    &&& explored(maze, wall, end, seen, stack)
    &&& stack.no_duplicates()
    &&& forall|i: int| 0 <= i < stack.len() ==> is_seen(seen, #[trigger] stack[i])
}

/// Where every mark stays, every marked cell stays marked.
proof fn lemma_seen_stays(before: Seq<Vec<bool>>, after: Seq<Vec<bool>>, p: Point)
    requires
        marks_stay(before, after),
        is_seen(before, p),
    ensures
        is_seen(after, p),
{
    assert(after[p.y as int]@.len() == before[p.y as int]@.len());
    assert(after[p.y as int]@[p.x as int]);
}

/// Where the search has explored all it can reach, without a cell left on
/// its stack, a way from a marked cell over free cells comes to marked cells
/// only.
proof fn lemma_explored_holds_routes(
    maze: Seq<Vec<&str>>,
    wall: &str,
    end: Point,
    seen: Seq<Vec<bool>>,
    path: Seq<Point>,
    upto: int,
)
    requires
        explored(maze, wall, end, seen, Seq::empty()),
        path.len() > 0,
        is_seen(seen, path[0]),
        forall|i: int| 0 <= i < path.len() ==> is_free(maze, wall, #[trigger] path[i]),
        forall|i: int| 0 <= i < path.len() - 1 ==> is_step(#[trigger] path[i], path[i + 1]),
        0 <= upto < path.len(),
    ensures
        is_seen(seen, path[upto]),
    decreases upto,
{
    if upto > 0 {
        lemma_explored_holds_routes(maze, wall, end, seen, path, upto - 1);
        assert(is_step(path[upto - 1], path[upto]));
        assert(is_free(maze, wall, path[upto]));
        assert(!Seq::<Point>::empty().contains(path[upto - 1]));
    }
}

/// A step from a cell leads to one of its four neighbours.
proof fn lemma_step_is_neighbour(a: Point, b: Point)
    requires
        is_step(a, b),
    ensures
        exists|direction: int| 0 <= direction < 4 && #[trigger] neighbour_of(a, direction) == Some(b),
{
    if a.x == b.x && a.y + 1 == b.y {
        assert(neighbour_of(a, 0) == Some(b));
    } else if a.y == b.y && a.x + 1 == b.x {
        assert(neighbour_of(a, 1) == Some(b));
    } else if a.x == b.x && b.y + 1 == a.y {
        assert(neighbour_of(a, 2) == Some(b));
    } else {
        assert(neighbour_of(a, 3) == Some(b));
    }
}

/// The number of cells that are not marked.
spec fn unseen_cells(seen: Seq<Vec<bool>>) -> nat
    decreases seen.len(),
{
    if seen.len() == 0 {
        0
    } else {
        unseen_cells(seen.drop_last()) + unseen_count(seen.last()@)
    }
}

/// `after` holds every mark of `before`, row by row.
spec fn marks_stay(before: Seq<Vec<bool>>, after: Seq<Vec<bool>>) -> bool {
    &&& after.len() == before.len()
    &&& forall|y: int| 0 <= y < before.len() ==> (#[trigger] after[y])@.len() == before[y]@.len()
    &&& forall|y: int, x: int|
        0 <= y < before.len() && 0 <= x < before[y]@.len() && before[y]@[x] ==> (
        #[trigger] after[y]@[x])
}

/// Where every mark stays, the count of the unmarked cells does not rise.
proof fn lemma_cells_stay(before: Seq<Vec<bool>>, after: Seq<Vec<bool>>)
    requires
        marks_stay(before, after),
    ensures
        unseen_cells(after) <= unseen_cells(before),
    decreases before.len(),
{
    if before.len() > 0 {
        let last = before.len() - 1;
        assert(after[last]@.len() == before[last]@.len());
        assert forall|x: int| 0 <= x < before[last]@.len() && before[last]@[x] implies after[last]@[x] by {
            assert(after[last]@[x]);
        }
        lemma_marks_stay(before.last()@, after.last()@);
        assert(marks_stay(before.drop_last(), after.drop_last())) by {
            assert forall|y: int| 0 <= y < last implies (#[trigger] after.drop_last()[y])@.len()
                == before.drop_last()[y]@.len() by {
                assert(after[y]@.len() == before[y]@.len());
            }
            assert forall|y: int, x: int|
                0 <= y < last && 0 <= x < before.drop_last()[y]@.len() && before.drop_last()[y]@[x]
                implies (#[trigger] after.drop_last()[y]@[x]) by {
                assert(after[y]@[x]);
            }
        }
        lemma_cells_stay(before.drop_last(), after.drop_last());
    }
}

/// Marking a cell that was not marked lowers the count by one.
proof fn lemma_cell_marked(before: Seq<Vec<bool>>, after: Seq<Vec<bool>>, y: int, x: int)
    requires
        after.len() == before.len(),
        0 <= y < before.len(),
        0 <= x < before[y]@.len(),
        !before[y]@[x],
        after[y]@ == before[y]@.update(x, true),
        forall|j: int| 0 <= j < before.len() && j != y ==> (#[trigger] after[j])@ == before[j]@,
    ensures
        unseen_cells(after) + 1 == unseen_cells(before),
        marks_stay(before, after),
    decreases before.len(),
{
    let last = before.len() - 1;
    if y == last {
        lemma_mark_seen(before[y]@, x);
        lemma_rows_equal(before.drop_last(), after.drop_last());
    } else {
        assert(after[last]@ == before[last]@);
        lemma_cell_marked(before.drop_last(), after.drop_last(), y, x);
    }
    assert forall|j: int, i: int|
        0 <= j < before.len() && 0 <= i < before[j]@.len() && before[j]@[i] implies (
    #[trigger] after[j]@[i]) by {
        if j != y {
            assert(after[j]@ == before[j]@);
        }
    }
    assert forall|j: int| 0 <= j < before.len() implies (#[trigger] after[j])@.len()
        == before[j]@.len() by {
        if j != y {
            assert(after[j]@ == before[j]@);
        }
    }
}

/// Rows with the same marks have the same count of unmarked cells.
proof fn lemma_rows_equal(before: Seq<Vec<bool>>, after: Seq<Vec<bool>>)
    requires
        after.len() == before.len(),
        forall|j: int| 0 <= j < before.len() ==> (#[trigger] after[j])@ == before[j]@,
    ensures
        unseen_cells(after) == unseen_cells(before),
    decreases before.len(),
{
    if before.len() > 0 {
        assert(after[before.len() - 1]@ == before[before.len() - 1]@);
        lemma_rows_equal(before.drop_last(), after.drop_last());
    }
}

/// The marks have a row for each row of the maze, as wide as the first row
/// of the maze at least.
spec fn marks_fit(maze: Seq<Vec<&str>>, seen: Seq<Vec<bool>>) -> bool {
    &&& seen.len() == maze.len()
    &&& forall|y: int| 0 <= y < seen.len() ==> (#[trigger] seen[y])@.len() >= maze[0]@.len()
}

/// The neighbour of `curr` in the direction of this number: 0 is below, 1
/// right, 2 above, 3 left. Nothing where that has no cell.
fn neighbour(curr: &Point, direction: usize) -> (next: Option<Point>)
    requires
        direction < 4,
        curr.x < usize::MAX,
        curr.y < usize::MAX,
    ensures
        next == neighbour_of(*curr, direction as int),
        next matches Some(p) ==> is_step(*curr, p),
{
    if direction == 0 {
        Some(Point { x: curr.x, y: curr.y + 1 })
    } else if direction == 1 {
        Some(Point { x: curr.x + 1, y: curr.y })
    } else if direction == 2 {
        if curr.y > 0 {
            Some(Point { x: curr.x, y: curr.y - 1 })
        } else {
            None
        }
    } else {
        if curr.x > 0 {
            Some(Point { x: curr.x - 1, y: curr.y })
        } else {
            None
        }
    }
}

/// Goes on from `curr`, depth first, over the free cells not seen yet. Where
/// that comes to `end`, the way from `curr` to it stands behind what `path`
/// held; else `path` is as it was.
fn walk(
    maze: &Vec<Vec<&str>>,
    wall: &str,
    curr: &Point,
    end: &Point,
    seen: &mut Vec<Vec<bool>>,
    path: &mut Vec<Point>,
    Ghost(fuel): Ghost<nat>,
) -> (result: Result<bool, Error>)
    requires
        maze@.len() > 0 ==> rows_fit(maze@) && marks_fit(maze@, old(seen)@) && fuel
            >= unseen_cells(old(seen)@),
    ensures
        maze@.len() > 0 ==> ({
            let search = route_from(maze@, wall, *curr, *end, marks_of(old(seen)@), fuel);
            &&& result == Ok::<bool, Error>(search.0)
            &&& marks_of(final(seen)@) == search.2
            &&& search.0 ==> final(path)@ == old(path)@ + search.1
        }),
        maze@.len() > 0 && tidy(maze@, wall, *end, old(seen)@, old(path)@) ==> {
            &&& result matches Ok(false) ==> tidy(maze@, wall, *end, final(seen)@, final(path)@)
                && (is_free(maze@, wall, *curr) ==> is_seen(final(seen)@, *curr))
            &&& result matches Ok(true) ==> final(path)@.no_duplicates()
        },
        maze@.len() == 0 ==> result == Err::<bool, Error>(Error::InvalidMaze),
        maze@.len() > 0 ==> result is Ok,
        marks_stay(old(seen)@, final(seen)@),
        !(result matches Ok(true)) ==> final(path)@ == old(path)@,
        result matches Ok(true) ==> final(path)@.len() > old(path)@.len() && final(path)@.subrange(0, old(path)@.len() as int) == old(path)@ && is_route(
            maze@,
            wall,
            final(path)@.skip(old(path)@.len() as int),
            *curr,
            *end,
        ),
    decreases unseen_cells(old(seen)@),
{
    if maze.len() == 0 {
        return Err(Error::InvalidMaze);
    }
    let ghost unmarked = marks_of(seen@);
    if curr.x >= maze[0].len() || curr.y >= maze.len() {
        return Ok(false);
    }
    if same_text(maze[curr.y][curr.x], wall) {
        return Ok(false);
    }
    if curr.x == end.x && curr.y == end.y {
        path.push(Point { x: end.x, y: end.y });
        proof {
            assert(path@.subrange(0, old(path)@.len() as int) =~= old(path)@);
            assert(path@.skip(old(path)@.len() as int) =~= seq![*end]);
            assert(path@ =~= old(path)@ + seq![*end]);
            assert(*curr == *end);
            if tidy(maze@, wall, *end, old(seen)@, old(path)@) {
                assert forall|i: int, j: int|
                    0 <= i < path@.len() && 0 <= j < path@.len() && i != j implies path@[i]
                    != path@[j] by {
                    if i < old(path)@.len() {
                        assert(is_seen(old(seen)@, old(path)@[i]));
                    }
                    if j < old(path)@.len() {
                        assert(is_seen(old(seen)@, old(path)@[j]));
                    }
                }
            }
        }
        return Ok(true);
    }
    if seen[curr.y][curr.x] {
        return Ok(false);
    }
    seen[curr.y][curr.x] = true;
    let ghost marked = seen@;
    proof {
        lemma_cell_marked(old(seen)@, marked, curr.y as int, curr.x as int);
        assert(marks_of(marked) =~= unmarked.update(
            curr.y as int,
            unmarked[curr.y as int].update(curr.x as int, true),
        ));
    }
    path.push(Point { x: curr.x, y: curr.y });
    let ghost grown = path@;
    let ghost neat = tidy(maze@, wall, *end, old(seen)@, old(path)@);
    proof {
        if neat {
            lemma_tidy_grown(maze@, wall, *end, old(seen)@, marked, old(path)@, *curr);
        }
    }

    let mut direction: usize = 0;
    while direction < 4
        invariant
            neat == tidy(maze@, wall, *end, old(seen)@, old(path)@),
            neat ==> tidy(maze@, wall, *end, seen@, grown),
            fuel >= 1,
            fuel - 1 >= unseen_cells(seen@),
            fuel >= unseen_cells(old(seen)@),
            unmarked == marks_of(old(seen)@),
            !unmarked[curr.y as int][curr.x as int],
            *curr != *end,
            route_steps(
                maze@,
                wall,
                *curr,
                direction as int,
                *end,
                marks_of(seen@),
                (fuel - 1) as nat,
            ) == route_steps(maze@, wall, *curr, 0, *end, marks_of(marked), (fuel - 1) as nat),
            marks_of(marked) == unmarked.update(
                curr.y as int,
                unmarked[curr.y as int].update(curr.x as int, true),
            ),
            is_seen(seen@, *curr),
            neat ==> forall|d: int|
                0 <= d < direction ==> ((#[trigger] neighbour_of(*curr, d)) matches Some(q)
                    ==> !is_free(maze@, wall, q) || is_seen(seen@, q)),
            maze@.len() > 0,
            rows_fit(maze@),
            marks_fit(maze@, seen@),
            marks_stay(old(seen)@, seen@),
            marks_stay(marked, seen@),
            unseen_cells(marked) < unseen_cells(old(seen)@),
            is_free(maze@, wall, *curr),
            curr.x < usize::MAX,
            curr.y < usize::MAX,
            path@ == grown,
            grown == old(path)@.push(*curr),
        decreases 4 - direction,
    {
        if let Some(next) = neighbour(curr, direction) {
            proof {
                lemma_cells_stay(marked, seen@);
            }
            let ghost before = seen@;
            let found = walk(maze, wall, &next, end, seen, path, Ghost((fuel - 1) as nat));
            proof {
                lemma_cells_stay(before, seen@);
                lemma_marks_compose(old(seen)@, before, seen@);
                lemma_marks_compose(marked, before, seen@);
                lemma_seen_stays(before, seen@, *curr);
                if neat {
                    assert forall|d: int| 0 <= d < direction implies ((#[trigger] neighbour_of(
                        *curr,
                        d,
                    )) matches Some(q) ==> !is_free(maze@, wall, q) || is_seen(seen@, q)) by {
                        if let Some(q) = neighbour_of(*curr, d) {
                            if is_free(maze@, wall, q) {
                                lemma_seen_stays(before, seen@, q);
                            }
                        }
                    }
                }
            }
            match found {
                Ok(true) => {
                    proof {
                        let below = route_from(
                            maze@,
                            wall,
                            next,
                            *end,
                            marks_of(before),
                            (fuel - 1) as nat,
                        );
                        let along = route_steps(
                            maze@,
                            wall,
                            *curr,
                            direction as int,
                            *end,
                            marks_of(before),
                            (fuel - 1) as nat,
                        );
                        assert(along == (true, below.1, below.2));
                        let whole = route_from(maze@, wall, *curr, *end, unmarked, fuel);
                        assert(whole == (true, seq![*curr] + below.1, below.2));
                        assert(path@ =~= old(path)@ + (seq![*curr] + below.1));
                        let start = old(path)@.len() as int;
                        let tail = path@.skip(grown.len() as int);
                        let whole = path@.skip(start);
                        assert(path@.subrange(0, grown.len() as int) == grown);
                        assert forall|i: int| 0 <= i < start implies path@[i] == old(path)@[i] by {
                            assert(path@.subrange(0, grown.len() as int)[i] == grown[i]);
                        }
                        assert(path@.subrange(0, start) =~= old(path)@);
                        assert(whole[0] == *curr) by {
                            assert(path@.subrange(0, grown.len() as int)[start] == grown[start]);
                        }
                        assert(whole =~= seq![*curr] + tail);
                        assert(tail[0] == next);
                        assert forall|i: int| 0 <= i < whole.len() implies is_free(
                            maze@,
                            wall,
                            #[trigger] whole[i],
                        ) by {
                            if i > 0 {
                                assert(whole[i] == tail[i - 1]);
                            }
                        }
                        assert forall|i: int| 0 <= i < whole.len() - 1 implies is_step(
                            #[trigger] whole[i],
                            whole[i + 1],
                        ) by {
                            if i > 0 {
                                assert(whole[i] == tail[i - 1]);
                                assert(whole[i + 1] == tail[i]);
                                assert(is_step(tail[i - 1], tail[i]));
                            }
                        }
                    }
                    return Ok(true);
                },
                _ => {},
            }
        }
        direction += 1;
    }
    path.pop();
    proof {
        let along = route_steps(
            maze@,
            wall,
            *curr,
            direction as int,
            *end,
            marks_of(seen@),
            (fuel - 1) as nat,
        );
        assert(along == (false, Seq::<Point>::empty(), marks_of(seen@)));
        let whole = route_from(maze@, wall, *curr, *end, unmarked, fuel);
        assert(whole == (false, Seq::<Point>::empty(), marks_of(seen@)));
        assert(path@ =~= old(path)@);
        if neat {
            lemma_stack_grown(old(path)@, *curr);
            assert forall|p: Point, q: Point|
                is_seen(seen@, p) && !path@.contains(p) && #[trigger] is_step(p, q) && is_free(
                    maze@,
                    wall,
                    q,
                ) implies is_seen(seen@, q) by {
                if p == *curr {
                    lemma_step_is_neighbour(p, q);
                } else {
                    assert(!grown.contains(p));
                }
            }
            assert forall|i: int| 0 <= i < path@.len() implies is_seen(
                seen@,
                #[trigger] path@[i],
            ) by {
                assert(grown[i] == path@[i]);
            }
        }
    }

    Ok(false)
}

/// Marking a free cell that is not the end and putting it on the stack
/// leaves a tidy state tidy.
proof fn lemma_tidy_grown(
    maze: Seq<Vec<&str>>,
    wall: &str,
    end: Point,
    before: Seq<Vec<bool>>,
    marked: Seq<Vec<bool>>,
    stack: Seq<Point>,
    curr: Point,
)
    requires
        tidy(maze, wall, end, before, stack),
        marks_stay(before, marked),
        is_free(maze, wall, curr),
        curr != end,
        !is_seen(before, curr),
        is_seen(marked, curr),
        forall|p: Point| #[trigger] is_seen(marked, p) ==> p == curr || is_seen(before, p),
    ensures
        tidy(maze, wall, end, marked, stack.push(curr)),
{
    let grown = stack.push(curr);
    lemma_stack_grown(stack, curr);
    assert forall|p: Point, q: Point|
        is_seen(marked, p) && !grown.contains(p) && #[trigger] is_step(p, q) && is_free(
            maze,
            wall,
            q,
        ) implies is_seen(marked, q) by {
        assert(p != curr);
        assert(is_seen(before, p));
        assert(is_seen(before, q));
        lemma_seen_stays(before, marked, q);
    }
    assert forall|i: int| 0 <= i < grown.len() implies is_seen(marked, #[trigger] grown[i]) by {
        if i < stack.len() {
            assert(is_seen(before, stack[i]));
            lemma_seen_stays(before, marked, stack[i]);
        }
    }
    assert forall|i: int, j: int|
        0 <= i < grown.len() && 0 <= j < grown.len() && i != j implies grown[i] != grown[j] by {
        if i < stack.len() {
            assert(is_seen(before, stack[i]));
        }
        if j < stack.len() {
            assert(is_seen(before, stack[j]));
        }
    }
}

/// The cells on a stack onto which `top` was pushed are those that were on
/// it, and `top`.
proof fn lemma_stack_grown(stack: Seq<Point>, top: Point)
    ensures
        forall|p: Point| #[trigger] stack.push(top).contains(p) <==> stack.contains(p) || p == top,
{
    let grown = stack.push(top);
    assert forall|p: Point| #[trigger] grown.contains(p) <==> stack.contains(p) || p == top by {
        if stack.contains(p) {
            let at = stack.index_of(p);
            assert(grown[at] == p);
        }
        assert(grown[grown.len() - 1] == top);
    }
}

/// Marks that stay from a first state to a second and from there to a
/// third stay from the first to the third.
proof fn lemma_marks_compose(a: Seq<Vec<bool>>, b: Seq<Vec<bool>>, c: Seq<Vec<bool>>)
    requires
        marks_stay(a, b),
        marks_stay(b, c),
    ensures
        marks_stay(a, c),
{
    assert forall|y: int| 0 <= y < a.len() implies (#[trigger] c[y])@.len() == a[y]@.len() by {
        assert(b[y]@.len() == a[y]@.len());
    }
    assert forall|y: int, x: int|
        0 <= y < a.len() && 0 <= x < a[y]@.len() && a[y]@[x] implies (#[trigger] c[y]@[x]) by {
        assert(b[y]@.len() == a[y]@.len());
        assert(b[y]@[x]);
    }
}

/// A way from `start` to `end` over cells of the maze that are no wall,
/// found depth first: below first, then right, above, left.
///
/// A maze without rows is `InvalidMaze`. Where the search finds no way, that
/// is `NoSolution`.
pub fn solve(maze: Vec<Vec<&str>>, wall: &str, start: Point, end: Point) -> (result: Result<
    Vec<Point>,
    Error,
>)
    requires
        rows_fit(maze@),
    ensures
        maze@.len() == 0 ==> result == Err::<Vec<Point>, Error>(Error::InvalidMaze),
        maze@.len() > 0 && solvable(maze@, wall, start, end) ==> (result matches Ok(path)
            && is_route(maze@, wall, path@, start, end) && path@.no_duplicates()),
        maze@.len() > 0 && !solvable(maze@, wall, start, end) ==> result == Err::<
            Vec<Point>,
            Error,
        >(Error::NoSolution),
        maze@.len() > 0 ==> (result matches Ok(path) ==> path@ == first_route(
            maze@,
            wall,
            start,
            end,
        ).1),
{
    let mut seen: Vec<Vec<bool>> = Vec::new();
    let mut y: usize = 0;
    while y < maze.len()
        invariant
            y <= maze@.len(),
            seen@.len() == y,
            forall|j: int| 0 <= j < y ==> (#[trigger] seen@[j])@.len() == maze@[j]@.len(),
            forall|j: int, i: int| 0 <= j < y && 0 <= i < seen@[j]@.len() ==> !(#[trigger] seen@[j]@[i]),
        decreases maze@.len() - y,
    {
        seen.push(vec![false; maze[y].len()]);
        y += 1;
    }
    let mut path: Vec<Point> = vec![];
    assert(forall|p: Point| !is_seen(seen@, p));
    assert(tidy(maze@, wall, end, seen@, path@));
    proof {
        lemma_blank_count(maze@, seen@);
        assert(marks_of(seen@) =~~= blank_marks(maze@));
    }

    match walk(&maze, wall, &start, &end, &mut seen, &mut path, Ghost(cell_count(maze@))) {
        Err(error) => {
            return Err(error);
        },
        Ok(found) => {
            proof {
                if found {
                    assert(path@.skip(0) =~= path@);
                    assert(path@ =~= Seq::<Point>::empty() + first_route(
                        maze@,
                        wall,
                        start,
                        end,
                    ).1);
                } else {
                    assert(path@ =~= Seq::empty());
                    assert forall|way: Seq<Point>| !is_route(maze@, wall, way, start, end) by {
                        if is_route(maze@, wall, way, start, end) {
                            lemma_explored_holds_routes(
                                maze@,
                                wall,
                                end,
                                seen@,
                                way,
                                way.len() - 1,
                            );
                        }
                    }
                }
            }
        },
    }
    if path.is_empty() {
        Err(Error::NoSolution)
    } else {
        Ok(path)
    }
}

} // verus!
