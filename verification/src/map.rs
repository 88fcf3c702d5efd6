use vstd::prelude::*;

use crate::components::Position;
use crate::entities::{
    create_box, create_box_spot, create_floor, create_player, create_wall, Z_ACTOR, Z_BOX_SPOT,
    Z_FLOOR,
};
use crate::world::{
    at_cell, at_most_one_player, columns_aligned, entity_count, has_box_at, has_box_spot_at,
    has_floor_at, has_immovable_at, has_movable_at, has_player_at, has_wall_at, is_box,
    is_box_spot, is_floor, is_immovable, is_movable, is_player, is_tagged, is_wall, valid_idx, wf,
    World,
};

verus! {

/// Whitespace of the level format: what separates and pads its
/// tokens.
pub open spec fn is_map_space(c: char) -> bool {
    c == ' ' || c == '\t' || c == '\r' || c == '\n'
}

/// The six characters a level description may use.
pub open spec fn is_map_char(c: char) -> bool {
    c == '.' || c == 'W' || c == 'P' || c == 'B' || c == 'S' || c == 'N'
}

/// `s` without its leading whitespace.
pub open spec fn trim_start_spec(s: Seq<char>) -> Seq<char>
    decreases s.len(),
{
    if s.len() > 0 && is_map_space(s[0]) {
        trim_start_spec(s.drop_first())
    } else {
        s
    }
}

/// `s` without its trailing whitespace.
pub open spec fn trim_end_spec(s: Seq<char>) -> Seq<char>
    decreases s.len(),
{
    if s.len() > 0 && is_map_space(s.last()) {
        trim_end_spec(s.drop_last())
    } else {
        s
    }
}

/// `s` without leading and trailing whitespace.
pub open spec fn trim_spec(s: Seq<char>) -> Seq<char> {
    trim_end_spec(trim_start_spec(s))
}

/// Index of the first `sep` in `s`, or `s.len()` if there is none.
pub open spec fn find_char(s: Seq<char>, sep: char) -> nat
    decreases s.len(),
{
    if s.len() == 0 {
        0
    } else if s[0] == sep {
        0
    } else {
        1 + find_char(s.drop_first(), sep)
    }
}

/// The pieces of `s` between its `sep` characters, in order; like
/// the splitting iterators of ordinary string handling, it yields
/// one piece more than there are separators, so pieces can be
/// empty.
pub open spec fn split_char(s: Seq<char>, sep: char) -> Seq<Seq<char>>
    decreases s.len(),
{
    let f = find_char(s, sep) as int;
    if f >= s.len() {
        seq![s]
    } else {
        seq![s.subrange(0, f)] + split_char(s.subrange(f + 1, s.len() as int), sep)
    }
}

/// `find_char` names the first occurrence: nothing before it is the
/// separator, and it is the separator unless it is the length.
proof fn lemma_find_char_is_first(s: Seq<char>, sep: char, i: int)
    requires
        0 <= i <= s.len(),
        forall|k: int| 0 <= k < i ==> s[k] != sep,
        i == s.len() || s[i] == sep,
    ensures
        find_char(s, sep) == i,
    decreases i,
{
    if s.len() == 0 {
    } else if s[0] == sep {
        assert(i == 0);
    } else {
        assert(i > 0);
        let t = s.drop_first();
        assert forall|k: int| 0 <= k < i - 1 implies t[k] != sep by {
            assert(t[k] == s[k + 1]);
        }
        assert(i - 1 == t.len() || t[i - 1] == sep);
        lemma_find_char_is_first(t, sep, i - 1);
    }
}

/// The views of a sequence of character vectors.
pub open spec fn views_of(rs: Seq<Vec<char>>) -> Seq<Seq<char>> {
    rs.map_values(|r: Vec<char>| r@)
}

/// Copies `v[from..to]` out into a fresh vector.
fn copy_range(v: &Vec<char>, from: usize, to: usize) -> (r: Vec<char>)
    requires
        from <= to <= v@.len(),
    ensures
        r@ == v@.subrange(from as int, to as int),
{
    let mut r: Vec<char> = Vec::new();
    let mut i: usize = from;
    while i < to
        invariant
            from <= i <= to <= v@.len(),
            r@ =~= v@.subrange(from as int, i as int),
        decreases to - i,
    {
        r.push(v[i]);
        proof {
            assert(r@ =~= v@.subrange(from as int, i as int + 1));
        }
        i += 1;
    }
    proof {
        assert(r@ =~= v@.subrange(from as int, to as int));
    }
    r
}

/// Tells whether `c` pads or separates tokens.
fn is_space_char(c: char) -> (r: bool)
    ensures
        r == is_map_space(c),
{
    c == ' ' || c == '\t' || c == '\r' || c == '\n'
}

/// `v` without leading and trailing whitespace.
fn trim_vec(v: &Vec<char>) -> (r: Vec<char>)
    ensures
        r@ == trim_spec(v@),
{
    let n = v.len();
    proof {
        assert(v@.subrange(0, n as int) =~= v@);
    }
    let mut a: usize = 0;
    while a < n && is_space_char(v[a])
        invariant
            n == v@.len(),
            a <= n,
            trim_start_spec(v@) == trim_start_spec(v@.subrange(a as int, n as int)),
        decreases n - a,
    {
        proof {
            let s = v@.subrange(a as int, n as int);
            assert(s[0] == v@[a as int]);
            assert(s.drop_first() =~= v@.subrange(a as int + 1, n as int));
            assert(trim_start_spec(s) == trim_start_spec(s.drop_first()));
        }
        a += 1;
    }
    proof {
        let s = v@.subrange(a as int, n as int);
        if a < n {
            assert(s[0] == v@[a as int]);
        }
        assert(trim_start_spec(s) == s);
        assert(trim_start_spec(v@) == v@.subrange(a as int, n as int));
    }
    let mut b: usize = n;
    while b > a && is_space_char(v[b - 1])
        invariant
            n == v@.len(),
            a <= b <= n,
            trim_start_spec(v@) == v@.subrange(a as int, n as int),
            trim_end_spec(v@.subrange(a as int, n as int)) == trim_end_spec(
                v@.subrange(a as int, b as int),
            ),
        decreases b,
    {
        proof {
            let s = v@.subrange(a as int, b as int);
            assert(s.last() == v@[b as int - 1]);
            assert(s.drop_last() =~= v@.subrange(a as int, b as int - 1));
            assert(trim_end_spec(s) == trim_end_spec(s.drop_last()));
        }
        b -= 1;
    }
    proof {
        let s = v@.subrange(a as int, b as int);
        if b > a {
            assert(s.last() == v@[b as int - 1]);
        }
        assert(trim_end_spec(s) == s);
        assert(trim_spec(v@) == v@.subrange(a as int, b as int));
    }
    copy_range(v, a, b)
}

/// Index of the first `sep` at or after `start`, or the length if
/// there is none.
fn find_from(v: &Vec<char>, start: usize, sep: char) -> (r: usize)
    requires
        start <= v@.len(),
    ensures
        start <= r <= v@.len(),
        r - start == find_char(v@.subrange(start as int, v@.len() as int), sep),
        r < v@.len() ==> v@[r as int] == sep,
        forall|k: int| start <= k < r ==> v@[k] != sep,
{
    let n = v.len();
    let mut i: usize = start;
    while i < n && v[i] != sep
        invariant
            n == v@.len(),
            start <= i <= n,
            forall|k: int| start <= k < i ==> v@[k] != sep,
        decreases n - i,
    {
        i += 1;
    }
    proof {
        let s = v@.subrange(start as int, n as int);
        assert forall|k: int| 0 <= k < i - start implies s[k] != sep by {
            assert(s[k] == v@[start + k]);
        }
        if i < n {
            assert(s[i - start] == v@[i as int]);
        }
        lemma_find_char_is_first(s, sep, i as int - start);
    }
    i
}

/// Splits `v` on `sep`, yielding exactly the pieces of
/// `split_char`.
fn split_vec(v: &Vec<char>, sep: char) -> (r: Vec<Vec<char>>)
    ensures
        views_of(r@) == split_char(v@, sep),
        r@.len() == split_char(v@, sep).len(),
        forall|i: int| 0 <= i < r@.len() ==> #[trigger] r@[i]@ == split_char(v@, sep)[i],
{
    let n = v.len();
    let mut r: Vec<Vec<char>> = Vec::new();
    let mut start: usize = 0;
    proof {
        assert(v@.subrange(0, n as int) =~= v@);
        assert(views_of(r@) + split_char(v@, sep) =~= split_char(v@, sep));
    }
    loop
        invariant_except_break
            n == v@.len(),
            start <= n,
            split_char(v@, sep) =~= views_of(r@) + split_char(
                v@.subrange(start as int, n as int),
                sep,
            ),
        ensures
            views_of(r@) =~= split_char(v@, sep),
        decreases n - start,
    {
        let j = find_from(v, start, sep);
        let piece = copy_range(v, start, j);
        let ghost r_old = r@;
        r.push(piece);
        proof {
            let s = v@.subrange(start as int, n as int);
            let f = find_char(s, sep) as int;
            assert(f == j - start);
            assert(views_of(r@) =~= views_of(r_old) + seq![piece@]) by {
                assert(r@ == r_old.push(piece));
                assert forall|i: int| 0 <= i < r@.len() implies views_of(r@)[i] == (views_of(
                    r_old,
                ) + seq![piece@])[i] by {
                    if i < r_old.len() {
                        assert(views_of(r@)[i] == r@[i]@);
                        assert(views_of(r_old)[i] == r_old[i]@);
                    } else {
                        assert(views_of(r@)[i] == r@[i]@);
                    }
                }
            }
            if j == n {
                assert(f >= s.len());
                assert(split_char(s, sep) == seq![s]);
                assert(piece@ =~= s);
                assert(views_of(r_old) + seq![piece@] =~= views_of(r_old) + split_char(s, sep));
                assert(views_of(r@) =~= split_char(v@, sep));
            } else {
                assert(f < s.len());
                assert(split_char(s, sep) == seq![s.subrange(0, f)] + split_char(
                    s.subrange(f + 1, s.len() as int),
                    sep,
                ));
                assert(s.subrange(0, f) =~= v@.subrange(start as int, j as int));
                assert(piece@ == s.subrange(0, f));
                assert(s.subrange(f + 1, s.len() as int) =~= v@.subrange(j as int + 1, n as int));
                assert(views_of(r@) + split_char(v@.subrange(j as int + 1, n as int), sep)
                    =~= views_of(r_old) + split_char(s, sep)) by {
                    assert(views_of(r@) =~= views_of(r_old) + seq![piece@]);
                }
                assert(split_char(v@, sep) =~= views_of(r@) + split_char(
                    v@.subrange(j as int + 1, n as int),
                    sep,
                ));
            }
        }
        if j == n {
            break ;
        }
        start = j + 1;
    }
    r
}


/// Relies on str::chars: iterating a string yields exactly the
/// characters of its view, in order.
#[verifier::external_body]
fn chars_of(s: &str) -> (r: Vec<char>)
    ensures
        r@ == s@,
{
    s.chars().collect()
}

/// The token grid that a level description denotes: the text is
/// trimmed and split into rows at line breaks, and each trimmed row
/// into tokens at spaces.
pub open spec fn map_grid(s: Seq<char>) -> Seq<Seq<Seq<char>>> {
    split_char(trim_spec(s), '\n').map_values(|row: Seq<char>| split_char(trim_spec(row), ' '))
}

/// The single character of each token; meaningful for valid grids.
pub open spec fn grid_chars(g: Seq<Seq<Seq<char>>>) -> Seq<Seq<char>> {
    g.map_values(|row: Seq<Seq<char>>| row.map_values(|t: Seq<char>| t[0]))
}

/// A token the format knows: one of the six characters.
pub open spec fn valid_token(t: Seq<char>) -> bool {
    t.len() == 1 && is_map_char(t[0])
}

pub open spec fn all_tokens_valid(g: Seq<Seq<Seq<char>>>) -> bool {
    forall|y: int, x: int|
        0 <= y < g.len() && 0 <= x < g[y].len() ==> valid_token(#[trigger] g[y][x])
}

/// The grid stays inside the 8-bit coordinate range.
pub open spec fn grid_fits(g: Seq<Seq<Seq<char>>>) -> bool {
    g.len() <= 256 && forall|y: int| 0 <= y < g.len() ==> #[trigger] g[y].len() <= 256
}

pub open spec fn valid_grid(g: Seq<Seq<Seq<char>>>) -> bool {
    all_tokens_valid(g) && grid_fits(g)
}

/// Reasons a level description is rejected.
#[derive(Clone, Copy, Debug, PartialEq, Eq, Structural)]
pub enum MapError {
    /// A token other than the six the format defines.
    UnrecognizedItem,
    /// More than 256 rows, or a row of more than 256 tokens.
    MapTooLarge,
}

/// `(x, y)` lies on the character grid `g`.
pub open spec fn level_cell(g: Seq<Seq<char>>, x: int, y: int) -> bool {
    0 <= y < g.len() && 0 <= x < g[y].len()
}

/// `(ex, ey)` comes strictly before the frontier `(fx, fy)` in
/// row-major order.
pub open spec fn cell_before(ex: int, ey: int, fx: int, fy: int) -> bool {
    ey < fy || (ey == fy && ex < fx)
}

/// The tags of entity `i` agree with the token `t` of its cell.
pub open spec fn entity_token_ok(w: World, i: int, t: char) -> bool {
    &&& is_wall(w, i) ==> t == 'W'
    &&& is_player(w, i) ==> t == 'P'
    &&& is_box(w, i) ==> t == 'B'
    &&& is_box_spot(w, i) ==> t == 'S'
    &&& t != 'N'
}

/// Entity `i` is one that loading grid `g` creates: it stands on a
/// grid cell, matches that cell's token, obeys the tag discipline,
/// and carries the draw height of its kind.
pub open spec fn entity_built(w: World, g: Seq<Seq<char>>, i: int) -> bool {
    let ex = w.positions@[i].x as int;
    let ey = w.positions@[i].y as int;
    &&& level_cell(g, ex, ey)
    &&& entity_token_ok(w, i, g[ey][ex])
    &&& (is_movable(w, i) <==> (is_player(w, i) || is_box(w, i)))
    &&& (is_immovable(w, i) <==> is_wall(w, i))
    &&& ((is_wall(w, i) || is_player(w, i) || is_box(w, i)) ==> w.positions@[i].z == Z_ACTOR)
    &&& (is_box_spot(w, i) ==> w.positions@[i].z == Z_BOX_SPOT)
    &&& (!(is_wall(w, i) || is_player(w, i) || is_box(w, i) || is_box_spot(w, i)) ==> (
    w.positions@[i].z == Z_FLOOR && is_floor(w, i)))
}

/// Every cell of `g` strictly before the frontier has the entities
/// its token announces.
pub open spec fn presence_built(w: World, g: Seq<Seq<char>>, fy: int, fx: int) -> bool {
    forall|x: int, y: int|
        #![trigger g[y][x]]
        level_cell(g, x, y) && cell_before(x, y, fx, fy) ==> {
            &&& (g[y][x] == 'W' ==> has_wall_at(w, x, y))
            &&& (g[y][x] == 'P' ==> has_player_at(w, x, y))
            &&& (g[y][x] == 'B' ==> has_box_at(w, x, y))
            &&& (g[y][x] == 'S' ==> has_box_spot_at(w, x, y))
            &&& (g[y][x] != 'N' ==> has_floor_at(w, x, y))
        }
}

/// The world holds exactly the level that the character grid `g`
/// describes: a well-formed entity store whose walls, player, boxes,
/// goals, floors and blocking tags occupy precisely the cells their
/// tokens name, with nothing outside the grid.
pub open spec fn level_built(w: World, g: Seq<Seq<char>>) -> bool {
    &&& wf(w)
    &&& forall|x: int, y: int|
        #![trigger g[y][x]]
        level_cell(g, x, y) ==> {
            &&& (has_wall_at(w, x, y) <==> g[y][x] == 'W')
            &&& (has_player_at(w, x, y) <==> g[y][x] == 'P')
            &&& (has_box_at(w, x, y) <==> g[y][x] == 'B')
            &&& (has_box_spot_at(w, x, y) <==> g[y][x] == 'S')
            &&& (has_floor_at(w, x, y) <==> g[y][x] != 'N')
            &&& (has_movable_at(w, x, y) <==> (g[y][x] == 'P' || g[y][x] == 'B'))
            &&& (has_immovable_at(w, x, y) <==> g[y][x] == 'W')
        }
    &&& forall|i: int| valid_idx(w, i) ==> #[trigger] entity_built(w, g, i)
}

/// One entity slot was appended to every column; the earlier slots
/// are untouched.
pub open spec fn appended_one(w0: World, w1: World) -> bool {
    &&& w1.positions@.len() == w0.positions@.len() + 1
    &&& w1.renderables@.len() == w0.renderables@.len() + 1
    &&& w1.walls@.len() == w0.walls@.len() + 1
    &&& w1.players@.len() == w0.players@.len() + 1
    &&& w1.boxes@.len() == w0.boxes@.len() + 1
    &&& w1.box_spots@.len() == w0.box_spots@.len() + 1
    &&& w1.movables@.len() == w0.movables@.len() + 1
    &&& w1.immovables@.len() == w0.immovables@.len() + 1
    &&& forall|i: int| 0 <= i < w0.positions@.len() ==> #[trigger] w1.positions@[i] == w0.positions@[i]
    &&& forall|i: int|
        0 <= i < w0.renderables@.len() ==> #[trigger] w1.renderables@[i] == w0.renderables@[i]
    &&& forall|i: int| 0 <= i < w0.walls@.len() ==> #[trigger] w1.walls@[i] == w0.walls@[i]
    &&& forall|i: int| 0 <= i < w0.players@.len() ==> #[trigger] w1.players@[i] == w0.players@[i]
    &&& forall|i: int| 0 <= i < w0.boxes@.len() ==> #[trigger] w1.boxes@[i] == w0.boxes@[i]
    &&& forall|i: int|
        0 <= i < w0.box_spots@.len() ==> #[trigger] w1.box_spots@[i] == w0.box_spots@[i]
    &&& forall|i: int| 0 <= i < w0.movables@.len() ==> #[trigger] w1.movables@[i] == w0.movables@[i]
    &&& forall|i: int|
        0 <= i < w0.immovables@.len() ==> #[trigger] w1.immovables@[i] == w0.immovables@[i]
}

/// Appending one entity that matches its token keeps the store well
/// formed, keeps every built entity built, and keeps every promised
/// presence, as long as a blocking newcomer lands on a cell that
/// held nothing blocking.
proof fn lemma_append_keeps(w0: World, w1: World, g: Seq<Seq<char>>, fy: int, fx: int)
    requires
        wf(w0),
        forall|i: int| valid_idx(w0, i) ==> #[trigger] entity_built(w0, g, i),
        presence_built(w0, g, fy, fx),
        appended_one(w0, w1),
        entity_built(w1, g, entity_count(w0) as int),
        is_tagged(w1, entity_count(w0) as int) ==> !has_movable_at(
            w0,
            w1.positions@[entity_count(w0) as int].x as int,
            w1.positions@[entity_count(w0) as int].y as int,
        ) && !has_immovable_at(
            w0,
            w1.positions@[entity_count(w0) as int].x as int,
            w1.positions@[entity_count(w0) as int].y as int,
        ),
    ensures
        wf(w1),
        forall|i: int| valid_idx(w1, i) ==> #[trigger] entity_built(w1, g, i),
        presence_built(w1, g, fy, fx),
{
    let n = entity_count(w0) as int;
    assert forall|i: int| 0 <= i < n implies #[trigger] is_wall(w1, i) == is_wall(w0, i)
        && #[trigger] is_player(w1, i) == is_player(w0, i) && #[trigger] is_box(w1, i) == is_box(
        w0,
        i,
    ) && #[trigger] is_box_spot(w1, i) == is_box_spot(w0, i) && #[trigger] is_movable(w1, i)
        == is_movable(w0, i) && #[trigger] is_immovable(w1, i) == is_immovable(w0, i)
        && #[trigger] is_floor(w1, i) == is_floor(w0, i) && w1.positions@[i]
        == w0.positions@[i] by {}
    assert forall|i: int| valid_idx(w1, i) implies #[trigger] entity_built(w1, g, i) by {
        if i < n {
            assert(entity_built(w0, g, i));
        }
    }
    assert forall|i: int| valid_idx(w1, i) implies !(#[trigger] is_movable(w1, i) && is_immovable(
        w1,
        i,
    )) by {
        if i < n {
            assert(!(is_movable(w0, i) && is_immovable(w0, i)));
        } else {
            assert(entity_built(w1, g, i));
        }
    }
    assert forall|i: int| valid_idx(w1, i) && #[trigger] is_player(w1, i) implies is_movable(
        w1,
        i,
    ) by {
        assert(entity_built(w1, g, i));
    }
    assert forall|i: int| valid_idx(w1, i) && #[trigger] is_box(w1, i) implies is_movable(
        w1,
        i,
    ) by {
        assert(entity_built(w1, g, i));
    }
    assert forall|i: int| valid_idx(w1, i) && #[trigger] is_wall(w1, i) implies is_immovable(
        w1,
        i,
    ) by {
        assert(entity_built(w1, g, i));
    }
    assert forall|i: int, j: int|
        valid_idx(w1, i) && valid_idx(w1, j) && i != j && #[trigger] is_tagged(w1, i)
            && #[trigger] is_tagged(w1, j) implies w1.positions@[i].x != w1.positions@[j].x
        || w1.positions@[i].y != w1.positions@[j].y by {
        if i < n && j < n {
            assert(is_tagged(w0, i) && is_tagged(w0, j));
        } else {
            let o = if i < n {
                i
            } else {
                j
            };
            assert(o < n && is_tagged(w0, o));
            if w1.positions@[o].x == w1.positions@[n].x && w1.positions@[o].y
                == w1.positions@[n].y {
                if is_movable(w0, o) {
                    assert(at_cell(
                        w0,
                        o,
                        w1.positions@[n].x as int,
                        w1.positions@[n].y as int,
                    ));
                    assert(has_movable_at(
                        w0,
                        w1.positions@[n].x as int,
                        w1.positions@[n].y as int,
                    ));
                } else {
                    assert(at_cell(
                        w0,
                        o,
                        w1.positions@[n].x as int,
                        w1.positions@[n].y as int,
                    ));
                    assert(has_immovable_at(
                        w0,
                        w1.positions@[n].x as int,
                        w1.positions@[n].y as int,
                    ));
                }
                assert(false);
            }
        }
    }
    assert forall|x: int, y: int|
        #![trigger g[y][x]]
        level_cell(g, x, y) && cell_before(x, y, fx, fy) implies {
        &&& (g[y][x] == 'W' ==> has_wall_at(w1, x, y))
        &&& (g[y][x] == 'P' ==> has_player_at(w1, x, y))
        &&& (g[y][x] == 'B' ==> has_box_at(w1, x, y))
        &&& (g[y][x] == 'S' ==> has_box_spot_at(w1, x, y))
        &&& (g[y][x] != 'N' ==> has_floor_at(w1, x, y))
    } by {
        if g[y][x] == 'W' {
            let i = choose|i: int|
                valid_idx(w0, i) && #[trigger] is_wall(w0, i) && at_cell(w0, i, x, y);
            assert(is_wall(w1, i) && at_cell(w1, i, x, y) && valid_idx(w1, i));
        }
        if g[y][x] == 'P' {
            let i = choose|i: int|
                valid_idx(w0, i) && #[trigger] is_player(w0, i) && at_cell(w0, i, x, y);
            assert(is_player(w1, i) && at_cell(w1, i, x, y) && valid_idx(w1, i));
        }
        if g[y][x] == 'B' {
            let i = choose|i: int|
                valid_idx(w0, i) && #[trigger] is_box(w0, i) && at_cell(w0, i, x, y);
            assert(is_box(w1, i) && at_cell(w1, i, x, y) && valid_idx(w1, i));
        }
        if g[y][x] == 'S' {
            let i = choose|i: int|
                valid_idx(w0, i) && #[trigger] is_box_spot(w0, i) && at_cell(w0, i, x, y);
            assert(is_box_spot(w1, i) && at_cell(w1, i, x, y) && valid_idx(w1, i));
        }
        if g[y][x] != 'N' {
            let i = choose|i: int|
                valid_idx(w0, i) && #[trigger] is_floor(w0, i) && at_cell(w0, i, x, y);
            assert(is_floor(w1, i) && at_cell(w1, i, x, y) && valid_idx(w1, i));
        }
    }
}

/// After the cell `(x, y)` is fully processed and shows what its
/// token announces, the presence frontier advances one cell.
proof fn lemma_step_frontier(w: World, g: Seq<Seq<char>>, y: int, x: int)
    requires
        presence_built(w, g, y, x),
        level_cell(g, x, y),
        g[y][x] == 'W' ==> has_wall_at(w, x, y),
        g[y][x] == 'P' ==> has_player_at(w, x, y),
        g[y][x] == 'B' ==> has_box_at(w, x, y),
        g[y][x] == 'S' ==> has_box_spot_at(w, x, y),
        g[y][x] != 'N' ==> has_floor_at(w, x, y),
    ensures
        presence_built(w, g, y, x + 1),
{
    assert forall|x2: int, y2: int|
        #![trigger g[y2][x2]]
        level_cell(g, x2, y2) && cell_before(x2, y2, x + 1, y) implies {
        &&& (g[y2][x2] == 'W' ==> has_wall_at(w, x2, y2))
        &&& (g[y2][x2] == 'P' ==> has_player_at(w, x2, y2))
        &&& (g[y2][x2] == 'B' ==> has_box_at(w, x2, y2))
        &&& (g[y2][x2] == 'S' ==> has_box_spot_at(w, x2, y2))
        &&& (g[y2][x2] != 'N' ==> has_floor_at(w, x2, y2))
    } by {
        if !(x2 == x && y2 == y) {
            assert(cell_before(x2, y2, x, y));
        }
    }
}

/// With the whole grid processed, the per-cell promises and the
/// per-entity records combine into the full level description.
proof fn lemma_level_complete(w: World, g: Seq<Seq<char>>)
    requires
        wf(w),
        forall|i: int| valid_idx(w, i) ==> #[trigger] entity_built(w, g, i),
        presence_built(w, g, g.len() as int, 0),
    ensures
        level_built(w, g),
{
    assert forall|x: int, y: int|
        #![trigger g[y][x]]
        level_cell(g, x, y) implies {
        &&& (has_wall_at(w, x, y) <==> g[y][x] == 'W')
        &&& (has_player_at(w, x, y) <==> g[y][x] == 'P')
        &&& (has_box_at(w, x, y) <==> g[y][x] == 'B')
        &&& (has_box_spot_at(w, x, y) <==> g[y][x] == 'S')
        &&& (has_floor_at(w, x, y) <==> g[y][x] != 'N')
        &&& (has_movable_at(w, x, y) <==> (g[y][x] == 'P' || g[y][x] == 'B'))
        &&& (has_immovable_at(w, x, y) <==> g[y][x] == 'W')
    } by {
        assert(cell_before(x, y, 0, g.len() as int));
        if has_wall_at(w, x, y) {
            let i = choose|i: int|
                valid_idx(w, i) && #[trigger] is_wall(w, i) && at_cell(w, i, x, y);
            assert(entity_built(w, g, i));
            assert(g[y][x] == 'W');
        }
        if has_player_at(w, x, y) {
            let i = choose|i: int|
                valid_idx(w, i) && #[trigger] is_player(w, i) && at_cell(w, i, x, y);
            assert(entity_built(w, g, i));
            assert(g[y][x] == 'P');
        }
        if has_box_at(w, x, y) {
            let i = choose|i: int|
                valid_idx(w, i) && #[trigger] is_box(w, i) && at_cell(w, i, x, y);
            assert(entity_built(w, g, i));
            assert(g[y][x] == 'B');
        }
        if has_box_spot_at(w, x, y) {
            let i = choose|i: int|
                valid_idx(w, i) && #[trigger] is_box_spot(w, i) && at_cell(w, i, x, y);
            assert(entity_built(w, g, i));
            assert(g[y][x] == 'S');
        }
        if has_floor_at(w, x, y) {
            let i = choose|i: int|
                valid_idx(w, i) && #[trigger] is_floor(w, i) && at_cell(w, i, x, y);
            assert(entity_built(w, g, i));
            assert(g[y][x] != 'N');
        }
        if has_movable_at(w, x, y) {
            let i = choose|i: int|
                valid_idx(w, i) && #[trigger] is_movable(w, i) && at_cell(w, i, x, y);
            assert(entity_built(w, g, i));
            assert(is_player(w, i) || is_box(w, i));
            assert(g[y][x] == 'P' || g[y][x] == 'B');
        }
        if has_immovable_at(w, x, y) {
            let i = choose|i: int|
                valid_idx(w, i) && #[trigger] is_immovable(w, i) && at_cell(w, i, x, y);
            assert(entity_built(w, g, i));
            assert(is_wall(w, i));
            assert(g[y][x] == 'W');
        }
        if g[y][x] == 'P' {
            assert(has_player_at(w, x, y));
            let i = choose|i: int|
                valid_idx(w, i) && #[trigger] is_player(w, i) && at_cell(w, i, x, y);
            assert(is_movable(w, i));
            assert(has_movable_at(w, x, y));
        }
        if g[y][x] == 'B' {
            assert(has_box_at(w, x, y));
            let i = choose|i: int|
                valid_idx(w, i) && #[trigger] is_box(w, i) && at_cell(w, i, x, y);
            assert(is_movable(w, i));
            assert(has_movable_at(w, x, y));
        }
        if g[y][x] == 'W' {
            assert(has_wall_at(w, x, y));
            let i = choose|i: int|
                valid_idx(w, i) && #[trigger] is_wall(w, i) && at_cell(w, i, x, y);
            assert(is_immovable(w, i));
            assert(has_immovable_at(w, x, y));
        }
    }
}

/// A level whose description names at most one player cell holds at
/// most one player entity.
pub proof fn lemma_level_one_player(w: World, g: Seq<Seq<char>>)
    requires
        level_built(w, g),
        forall|x1: int, y1: int, x2: int, y2: int|
            #![trigger g[y1][x1], g[y2][x2]]
            level_cell(g, x1, y1) && level_cell(g, x2, y2) && g[y1][x1] == 'P' && g[y2][x2] == 'P'
                ==> x1 == x2 && y1 == y2,
    ensures
        at_most_one_player(w),
{
    assert forall|i: int, j: int|
        valid_idx(w, i) && valid_idx(w, j) && #[trigger] is_player(w, i) && #[trigger] is_player(
            w,
            j,
        ) implies i == j by {
        assert(entity_built(w, g, i) && entity_built(w, g, j));
        let xi = w.positions@[i].x as int;
        let yi = w.positions@[i].y as int;
        let xj = w.positions@[j].x as int;
        let yj = w.positions@[j].y as int;
        assert(g[yi][xi] == 'P' && g[yj][xj] == 'P');
        assert(xi == xj && yi == yj);
        assert(is_movable(w, i) && is_movable(w, j));
        assert(is_tagged(w, i) && is_tagged(w, j));
        if i != j {
            assert(false);
        }
    }
}


/// Entities before `n0` stood before the processed cell, and the
/// ones from `n0` on stand exactly on it; so all stand before the
/// advanced frontier.
proof fn lemma_entities_frontier(w: World, g: Seq<Seq<char>>, y: int, x: int, n0: int)
    requires
        0 <= n0 <= entity_count(w),
        forall|i: int|
            0 <= i < n0 ==> cell_before(
                (#[trigger] w.positions@[i]).x as int,
                w.positions@[i].y as int,
                x,
                y,
            ),
        forall|i: int|
            n0 <= i < entity_count(w) ==> (#[trigger] w.positions@[i]).x as int == x
                && w.positions@[i].y as int == y,
    ensures
        forall|i: int|
            valid_idx(w, i) ==> cell_before(
                (#[trigger] w.positions@[i]).x as int,
                w.positions@[i].y as int,
                x + 1,
                y,
            ),
{
}

/// Creates the entities of a validated character grid, row by row:
/// floors under every non-void token, and the wall, player, box or
/// goal that the token names.
#[verifier::loop_isolation(false)]
fn build_level(world: &mut World, grid: &Vec<Vec<char>>)
    requires
        entity_count(*old(world)) == 0,
        columns_aligned(*old(world)),
        grid@.len() <= 256,
        forall|y: int| 0 <= y < grid@.len() ==> #[trigger] grid@[y]@.len() <= 256,
        forall|y: int, x: int|
            0 <= y < grid@.len() && 0 <= x < grid@[y]@.len() ==> is_map_char(
                #[trigger] grid@[y]@[x],
            ),
    ensures
        level_built(*final(world), views_of(grid@)),
{
    let ghost g = views_of(grid@);
    proof {
        assert(wf(*world));
        assert(forall|y: int| 0 <= y < g.len() ==> #[trigger] g[y] == grid@[y]@);
    }
    let rows_n = grid.len();
    let mut y: usize = 0;
    while y < rows_n
        invariant
            y <= rows_n,
            wf(*world),
            forall|i: int| valid_idx(*world, i) ==> #[trigger] entity_built(*world, g, i),
            forall|i: int|
                valid_idx(*world, i) ==> cell_before(
                    (#[trigger] world.positions@[i]).x as int,
                    world.positions@[i].y as int,
                    0,
                    y as int,
                ),
            presence_built(*world, g, y as int, 0),
        decreases rows_n - y,
    {
        let row_n = grid[y].len();
        let mut x: usize = 0;
        while x < row_n
            invariant
                x <= row_n,
                row_n == grid@[y as int]@.len(),
                y < rows_n,
                wf(*world),
                forall|i: int| valid_idx(*world, i) ==> #[trigger] entity_built(*world, g, i),
                forall|i: int|
                    valid_idx(*world, i) ==> cell_before(
                        (#[trigger] world.positions@[i]).x as int,
                        world.positions@[i].y as int,
                        x as int,
                        y as int,
                    ),
                presence_built(*world, g, y as int, x as int),
            decreases row_n - x,
        {
            let c = grid[y][x];
            let position = Position { x: x as u8, y: y as u8, z: 0 };
            let ghost n0 = entity_count(*world) as int;
            let ghost w0 = *world;
            proof {
                assert(g[y as int] == grid@[y as int]@);
                assert(g[y as int][x as int] == c);
                assert(is_map_char(c));
                assert(level_cell(g, x as int, y as int));
                assert(!has_movable_at(*world, x as int, y as int)) by {
                    if has_movable_at(*world, x as int, y as int) {
                        let i = choose|i: int|
                            valid_idx(*world, i) && #[trigger] is_movable(*world, i) && at_cell(
                                *world,
                                i,
                                x as int,
                                y as int,
                            );
                        assert(cell_before(
                            world.positions@[i].x as int,
                            world.positions@[i].y as int,
                            x as int,
                            y as int,
                        ));
                        assert(false);
                    }
                }
                assert(!has_immovable_at(*world, x as int, y as int)) by {
                    if has_immovable_at(*world, x as int, y as int) {
                        let i = choose|i: int|
                            valid_idx(*world, i) && #[trigger] is_immovable(*world, i) && at_cell(
                                *world,
                                i,
                                x as int,
                                y as int,
                            );
                        assert(cell_before(
                            world.positions@[i].x as int,
                            world.positions@[i].y as int,
                            x as int,
                            y as int,
                        ));
                        assert(false);
                    }
                }
            }
            if c == '.' {
                create_floor(world, position);
                proof {
                    assert(appended_one(w0, *world));
                    assert(entity_built(*world, g, n0)) by {
                        assert(world.positions@[n0] == (Position {
                            x: x as u8,
                            y: y as u8,
                            z: Z_FLOOR,
                        }));
                        assert(is_floor(*world, n0));
                    }
                    lemma_append_keeps(w0, *world, g, y as int, x as int);
                    assert(has_floor_at(*world, x as int, y as int)) by {
                        assert(valid_idx(*world, n0) && is_floor(*world, n0) && at_cell(
                            *world,
                            n0,
                            x as int,
                            y as int,
                        ));
                    }
                    lemma_step_frontier(*world, g, y as int, x as int);
                }
            } else if c == 'W' {
                create_wall(world, position);
                proof {
                    assert(appended_one(w0, *world));
                    assert(entity_built(*world, g, n0)) by {
                        assert(world.positions@[n0] == (Position {
                            x: x as u8,
                            y: y as u8,
                            z: Z_ACTOR,
                        }));
                        assert(is_wall(*world, n0) && is_immovable(*world, n0));
                    }
                    lemma_append_keeps(w0, *world, g, y as int, x as int);
                }
                let ghost w1 = *world;
                create_floor(world, position);
                proof {
                    assert(appended_one(w1, *world));
                    assert(entity_built(*world, g, n0 + 1)) by {
                        assert(world.positions@[n0 + 1] == (Position {
                            x: x as u8,
                            y: y as u8,
                            z: Z_FLOOR,
                        }));
                        assert(is_floor(*world, n0 + 1));
                    }
                    lemma_append_keeps(w1, *world, g, y as int, x as int);
                    assert(has_wall_at(*world, x as int, y as int)) by {
                        assert(valid_idx(*world, n0) && is_wall(*world, n0) && at_cell(
                            *world,
                            n0,
                            x as int,
                            y as int,
                        ));
                    }
                    assert(has_floor_at(*world, x as int, y as int)) by {
                        assert(valid_idx(*world, n0 + 1) && is_floor(*world, n0 + 1) && at_cell(
                            *world,
                            n0 + 1,
                            x as int,
                            y as int,
                        ));
                    }
                    lemma_step_frontier(*world, g, y as int, x as int);
                }
            } else if c == 'P' {
                create_floor(world, position);
                proof {
                    assert(appended_one(w0, *world));
                    assert(entity_built(*world, g, n0)) by {
                        assert(world.positions@[n0] == (Position {
                            x: x as u8,
                            y: y as u8,
                            z: Z_FLOOR,
                        }));
                        assert(is_floor(*world, n0));
                    }
                    lemma_append_keeps(w0, *world, g, y as int, x as int);
                    assert(!has_movable_at(*world, x as int, y as int)) by {
                        if has_movable_at(*world, x as int, y as int) {
                            let i = choose|i: int|
                                valid_idx(*world, i) && #[trigger] is_movable(*world, i)
                                    && at_cell(*world, i, x as int, y as int);
                            if i < n0 {
                                assert(is_movable(w0, i) && at_cell(w0, i, x as int, y as int));
                                assert(has_movable_at(w0, x as int, y as int));
                            }
                            assert(false);
                        }
                    }
                    assert(!has_immovable_at(*world, x as int, y as int)) by {
                        if has_immovable_at(*world, x as int, y as int) {
                            let i = choose|i: int|
                                valid_idx(*world, i) && #[trigger] is_immovable(*world, i)
                                    && at_cell(*world, i, x as int, y as int);
                            if i < n0 {
                                assert(is_immovable(w0, i) && at_cell(w0, i, x as int, y as int));
                                assert(has_immovable_at(w0, x as int, y as int));
                            }
                            assert(false);
                        }
                    }
                }
                let ghost w1 = *world;
                create_player(world, position);
                proof {
                    assert(appended_one(w1, *world));
                    assert(entity_built(*world, g, n0 + 1)) by {
                        assert(world.positions@[n0 + 1] == (Position {
                            x: x as u8,
                            y: y as u8,
                            z: Z_ACTOR,
                        }));
                        assert(is_player(*world, n0 + 1) && is_movable(*world, n0 + 1));
                    }
                    lemma_append_keeps(w1, *world, g, y as int, x as int);
                    assert(has_player_at(*world, x as int, y as int)) by {
                        assert(valid_idx(*world, n0 + 1) && is_player(*world, n0 + 1) && at_cell(
                            *world,
                            n0 + 1,
                            x as int,
                            y as int,
                        ));
                    }
                    assert(has_floor_at(*world, x as int, y as int)) by {
                        assert(valid_idx(*world, n0) && is_floor(*world, n0) && at_cell(
                            *world,
                            n0,
                            x as int,
                            y as int,
                        ));
                    }
                    lemma_step_frontier(*world, g, y as int, x as int);
                }
            } else if c == 'B' {
                create_floor(world, position);
                proof {
                    assert(appended_one(w0, *world));
                    assert(entity_built(*world, g, n0)) by {
                        assert(world.positions@[n0] == (Position {
                            x: x as u8,
                            y: y as u8,
                            z: Z_FLOOR,
                        }));
                        assert(is_floor(*world, n0));
                    }
                    lemma_append_keeps(w0, *world, g, y as int, x as int);
                    assert(!has_movable_at(*world, x as int, y as int)) by {
                        if has_movable_at(*world, x as int, y as int) {
                            let i = choose|i: int|
                                valid_idx(*world, i) && #[trigger] is_movable(*world, i)
                                    && at_cell(*world, i, x as int, y as int);
                            if i < n0 {
                                assert(is_movable(w0, i) && at_cell(w0, i, x as int, y as int));
                                assert(has_movable_at(w0, x as int, y as int));
                            }
                            assert(false);
                        }
                    }
                    assert(!has_immovable_at(*world, x as int, y as int)) by {
                        if has_immovable_at(*world, x as int, y as int) {
                            let i = choose|i: int|
                                valid_idx(*world, i) && #[trigger] is_immovable(*world, i)
                                    && at_cell(*world, i, x as int, y as int);
                            if i < n0 {
                                assert(is_immovable(w0, i) && at_cell(w0, i, x as int, y as int));
                                assert(has_immovable_at(w0, x as int, y as int));
                            }
                            assert(false);
                        }
                    }
                }
                let ghost w1 = *world;
                create_box(world, position);
                proof {
                    assert(appended_one(w1, *world));
                    assert(entity_built(*world, g, n0 + 1)) by {
                        assert(world.positions@[n0 + 1] == (Position {
                            x: x as u8,
                            y: y as u8,
                            z: Z_ACTOR,
                        }));
                        assert(is_box(*world, n0 + 1) && is_movable(*world, n0 + 1));
                    }
                    lemma_append_keeps(w1, *world, g, y as int, x as int);
                    assert(has_box_at(*world, x as int, y as int)) by {
                        assert(valid_idx(*world, n0 + 1) && is_box(*world, n0 + 1) && at_cell(
                            *world,
                            n0 + 1,
                            x as int,
                            y as int,
                        ));
                    }
                    assert(has_floor_at(*world, x as int, y as int)) by {
                        assert(valid_idx(*world, n0) && is_floor(*world, n0) && at_cell(
                            *world,
                            n0,
                            x as int,
                            y as int,
                        ));
                    }
                    lemma_step_frontier(*world, g, y as int, x as int);
                }
            } else if c == 'S' {
                create_floor(world, position);
                proof {
                    assert(appended_one(w0, *world));
                    assert(entity_built(*world, g, n0)) by {
                        assert(world.positions@[n0] == (Position {
                            x: x as u8,
                            y: y as u8,
                            z: Z_FLOOR,
                        }));
                        assert(is_floor(*world, n0));
                    }
                    lemma_append_keeps(w0, *world, g, y as int, x as int);
                }
                let ghost w1 = *world;
                create_box_spot(world, position);
                proof {
                    assert(appended_one(w1, *world));
                    assert(entity_built(*world, g, n0 + 1)) by {
                        assert(world.positions@[n0 + 1] == (Position {
                            x: x as u8,
                            y: y as u8,
                            z: Z_BOX_SPOT,
                        }));
                        assert(is_box_spot(*world, n0 + 1));
                    }
                    lemma_append_keeps(w1, *world, g, y as int, x as int);
                    assert(has_box_spot_at(*world, x as int, y as int)) by {
                        assert(valid_idx(*world, n0 + 1) && is_box_spot(*world, n0 + 1)
                            && at_cell(*world, n0 + 1, x as int, y as int));
                    }
                    assert(has_floor_at(*world, x as int, y as int)) by {
                        assert(valid_idx(*world, n0) && is_floor(*world, n0) && at_cell(
                            *world,
                            n0,
                            x as int,
                            y as int,
                        ));
                    }
                    lemma_step_frontier(*world, g, y as int, x as int);
                }
            } else {
                proof {
                    assert(c == 'N');
                    lemma_step_frontier(*world, g, y as int, x as int);
                }
            }
            proof {
                assert forall|i: int| 0 <= i < n0 implies cell_before(
                    (#[trigger] world.positions@[i]).x as int,
                    world.positions@[i].y as int,
                    x as int,
                    y as int,
                ) by {
                    assert(world.positions@[i] == w0.positions@[i]);
                    assert(cell_before(
                        w0.positions@[i].x as int,
                        w0.positions@[i].y as int,
                        x as int,
                        y as int,
                    ));
                }
                assert forall|i: int|
                    n0 <= i < entity_count(*world) implies (#[trigger] world.positions@[i]).x
                    as int == x as int && world.positions@[i].y as int == y as int by {}
                lemma_entities_frontier(*world, g, y as int, x as int, n0);
            }
            x += 1;
        }
        proof {
            assert forall|i: int| valid_idx(*world, i) implies cell_before(
                (#[trigger] world.positions@[i]).x as int,
                world.positions@[i].y as int,
                0,
                y as int + 1,
            ) by {
                assert(cell_before(
                    world.positions@[i].x as int,
                    world.positions@[i].y as int,
                    row_n as int,
                    y as int,
                ));
            }
            assert(presence_built(*world, g, y as int + 1, 0)) by {
                assert forall|x2: int, y2: int|
                    #![trigger g[y2][x2]]
                    level_cell(g, x2, y2) && cell_before(x2, y2, 0, y as int + 1) implies {
                    &&& (g[y2][x2] == 'W' ==> has_wall_at(*world, x2, y2))
                    &&& (g[y2][x2] == 'P' ==> has_player_at(*world, x2, y2))
                    &&& (g[y2][x2] == 'B' ==> has_box_at(*world, x2, y2))
                    &&& (g[y2][x2] == 'S' ==> has_box_spot_at(*world, x2, y2))
                    &&& (g[y2][x2] != 'N' ==> has_floor_at(*world, x2, y2))
                } by {
                    assert(g[y2] == grid@[y2]@);
                    assert(cell_before(x2, y2, row_n as int, y as int));
                }
            }
        }
        y += 1;
    }
    proof {
        lemma_level_complete(*world, g);
    }
}


/// Loads a level from its text description. The text is tokenized
/// exactly as `map_grid` says; a token outside the format, or a
/// grid that leaves the 8-bit coordinate range, is a structured
/// load-time error that leaves the world untouched. On success the
/// world holds precisely the described level.
#[verifier::loop_isolation(false)]
pub fn load_map(world: &mut World, map_string: String) -> (r: Result<(), MapError>)
    requires
        entity_count(*old(world)) == 0,
        columns_aligned(*old(world)),
    ensures
        r is Ok <==> valid_grid(map_grid(map_string@)),
        r is Err ==> *final(world) == *old(world),
        r == Err::<(), MapError>(MapError::UnrecognizedItem) <==> !all_tokens_valid(
            map_grid(map_string@),
        ),
        r == Err::<(), MapError>(MapError::MapTooLarge) <==> (all_tokens_valid(
            map_grid(map_string@),
        ) && !grid_fits(map_grid(map_string@))),
        r is Ok ==> level_built(*final(world), grid_chars(map_grid(map_string@))),
{
    let ghost mg = map_grid(map_string@);
    let chars = chars_of(map_string.as_str());
    let trimmed = trim_vec(&chars);
    let rows = split_vec(&trimmed, '\n');
    proof {
        assert(trimmed@ == trim_spec(map_string@));
        assert(mg.len() == rows@.len());
        assert forall|y: int| 0 <= y < rows@.len() implies #[trigger] mg[y] == split_char(
            trim_spec(rows@[y]@),
            ' ',
        ) by {
            assert(rows@[y]@ == split_char(trim_spec(map_string@), '\n')[y]);
        }
    }
    let mut grid: Vec<Vec<char>> = Vec::new();
    let rows_n = rows.len();
    let mut y: usize = 0;
    while y < rows_n
        invariant
            y <= rows_n,
            grid@.len() == y,
            forall|y2: int|
                0 <= y2 < y ==> #[trigger] grid@[y2]@.len() == mg[y2].len(),
            forall|y2: int, x: int|
                0 <= y2 < y && 0 <= x < mg[y2].len() ==> valid_token(#[trigger] mg[y2][x])
                    && grid@[y2]@[x] == mg[y2][x][0],
        decreases rows_n - y,
    {
        let row_t = trim_vec(&rows[y]);
        let toks = split_vec(&row_t, ' ');
        proof {
            assert(row_t@ == trim_spec(rows@[y as int]@));
            assert(views_of(toks@) == mg[y as int]);
        }
        let mut cells: Vec<char> = Vec::new();
        let toks_n = toks.len();
        let mut x: usize = 0;
        while x < toks_n
            invariant
                x <= toks_n,
                toks_n == mg[y as int].len(),
                cells@.len() == x,
                forall|x2: int|
                    0 <= x2 < x ==> valid_token(#[trigger] mg[y as int][x2]) && cells@[x2]
                        == mg[y as int][x2][0],
            decreases toks_n - x,
        {
            proof {
                assert(toks@[x as int]@ == mg[y as int][x as int]);
            }
            if toks[x].len() != 1 {
                proof {
                    assert(!valid_token(mg[y as int][x as int]));
                    assert(!all_tokens_valid(mg));
                }
                return Err(MapError::UnrecognizedItem);
            }
            let c = toks[x][0];
            if !(c == '.' || c == 'W' || c == 'P' || c == 'B' || c == 'S' || c == 'N') {
                proof {
                    assert(mg[y as int][x as int][0] == c);
                    assert(!valid_token(mg[y as int][x as int]));
                    assert(!all_tokens_valid(mg));
                }
                return Err(MapError::UnrecognizedItem);
            }
            proof {
                assert(mg[y as int][x as int][0] == c);
                assert(valid_token(mg[y as int][x as int]));
            }
            cells.push(c);
            x += 1;
        }
        grid.push(cells);
        y += 1;
    }
    proof {
        assert(all_tokens_valid(mg));
    }
    if grid.len() > 256 {
        proof {
            assert(!grid_fits(mg));
        }
        return Err(MapError::MapTooLarge);
    }
    let grid_n = grid.len();
    let mut y2: usize = 0;
    while y2 < grid_n
        invariant
            y2 <= grid_n,
            forall|k: int| 0 <= k < y2 ==> #[trigger] mg[k].len() <= 256,
        decreases grid_n - y2,
    {
        if grid[y2].len() > 256 {
            proof {
                assert(mg[y2 as int].len() > 256);
                assert(!grid_fits(mg));
            }
            return Err(MapError::MapTooLarge);
        }
        y2 += 1;
    }
    proof {
        assert(grid_fits(mg));
        assert(valid_grid(mg));
        assert(views_of(grid@) =~= grid_chars(mg)) by {
            assert(views_of(grid@).len() == grid_chars(mg).len());
            assert forall|yy: int| 0 <= yy < mg.len() implies views_of(grid@)[yy] == grid_chars(
                mg,
            )[yy] by {
                assert(grid_chars(mg)[yy] == mg[yy].map_values(|t: Seq<char>| t[0]));
                assert(views_of(grid@)[yy] =~= grid_chars(mg)[yy]) by {
                    assert forall|xx: int| 0 <= xx < mg[yy].len() implies grid@[yy]@[xx]
                        == mg[yy].map_values(|t: Seq<char>| t[0])[xx] by {
                        assert(grid@[yy]@[xx] == mg[yy][xx][0]);
                    }
                }
            }
        }
        assert forall|yy: int| 0 <= yy < grid@.len() implies #[trigger] grid@[yy]@.len()
            <= 256 by {
            assert(grid@[yy]@.len() == mg[yy].len());
        }
        assert forall|yy: int, xx: int|
            0 <= yy < grid@.len() && 0 <= xx < grid@[yy]@.len() implies is_map_char(
            #[trigger] grid@[yy]@[xx]) by {
            assert(grid@[yy]@[xx] == mg[yy][xx][0]);
            assert(valid_token(mg[yy][xx]));
        }
    }
    build_level(world, &grid);
    Ok(())
}

/// The level that ships with the game.
pub const MAP: &'static str = "
    N N W W W W W W W
    W W W . . . . . W
    W . . . B . . . W
    W . . . . . . . W 
    W . P . . . . . W
    W . . . . . . . W
    W . . S . . . . W
    W . . . . . . . W
    W W W W W W W W W
";

/// Loads the shipped level into a fresh world.
pub fn init_level(world: &mut World) -> (r: Result<(), MapError>)
    requires
        entity_count(*old(world)) == 0,
        columns_aligned(*old(world)),
    ensures
        r is Ok <==> valid_grid(map_grid(MAP@)),
        r is Err ==> *final(world) == *old(world),
        r is Ok ==> level_built(*final(world), grid_chars(map_grid(MAP@))),
{
    load_map(world, MAP.to_owned())
}

} // verus!
