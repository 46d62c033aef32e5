//! Backtracking search for dictionary words along paths of neighbouring cells.
use vstd::prelude::*;

use crate::trie::{build_trie, is_prefix, word_set, TrieNode};

verus! {

/// Number of rows of the board.
pub open spec fn rows(board: Seq<&str>) -> int {
    board.len() as int
}

/// Number of columns of the board, read from its first row.
pub open spec fn cols(board: Seq<&str>) -> int {
    board[0]@.len() as int
}

/// A board with at least one row and one column, small enough that every
/// coordinate fits in a `u8`. The first row sets the width; a cell past the end
/// of a shorter row is not on the board.
pub open spec fn board_ok(board: Seq<&str>) -> bool {
    &&& 0 < rows(board) <= 256
    &&& 0 < cols(board) <= 256
}

pub open spec fn on_board(board: Seq<&str>, p: (u8, u8)) -> bool {
    &&& (p.0 as int) < rows(board)
    &&& (p.1 as int) < cols(board)
    &&& (p.1 as int) < board[p.0 as int]@.len()
}

/// The character in cell `p`.
pub open spec fn letter(board: Seq<&str>, p: (u8, u8)) -> char {
    board[p.0 as int]@[p.1 as int]
}

/// The string read along the cells of `q`, in order.
pub open spec fn word_of(board: Seq<&str>, q: Seq<(u8, u8)>) -> Seq<char> {
    q.map_values(|p: (u8, u8)| letter(board, p))
}

/// Two different cells that touch horizontally, vertically or diagonally.
pub open spec fn neighbours(p: (u8, u8), q: (u8, u8)) -> bool {
    &&& p != q
    &&& -1 <= p.0 - q.0 <= 1
    &&& -1 <= p.1 - q.1 <= 1
}

pub open spec fn all_on_board(board: Seq<&str>, q: Seq<(u8, u8)>) -> bool {
    forall|k: int| 0 <= k < q.len() ==> on_board(board, #[trigger] q[k])
}

/// Each cell of `q` after the first touches the one before it.
pub open spec fn steps_adjacent(q: Seq<(u8, u8)>) -> bool {
    forall|a: int, b: int|
        0 <= a && b == a + 1 && b < q.len() ==> neighbours(#[trigger] q[a], #[trigger] q[b])
}

/// No cell occurs twice in `q`.
pub open spec fn cells_distinct(q: Seq<(u8, u8)>) -> bool {
    forall|a: int, b: int|
        0 <= a < q.len() && 0 <= b < q.len() && a != b ==> #[trigger] q[a] != #[trigger] q[b]
}

/// A path that may spell a word: cells on the board, each touching the next, none repeated.
pub open spec fn is_trail(board: Seq<&str>, q: Seq<(u8, u8)>) -> bool {
    &&& all_on_board(board, q)
    &&& steps_adjacent(q)
    &&& cells_distinct(q)
}

/// The words recorded in `found`.
pub open spec fn keys_of(found: Seq<(String, Vec<(u8, u8)>)>) -> Set<Seq<char>> {
    Set::new(|w: Seq<char>| exists|i: int| 0 <= i < found.len() && #[trigger] found[i].0@ == w)
}

/// Each word is recorded once.
pub open spec fn keys_distinct(found: Seq<(String, Vec<(u8, u8)>)>) -> bool {
    forall|i: int, j: int|
        0 <= i < found.len() && 0 <= j < found.len() && i != j ==> #[trigger] found[i].0@
            != #[trigger] found[j].0@
}

/// Every recorded word belongs to the dictionary.
pub open spec fn keys_legal(dict: Set<Seq<char>>, found: Seq<(String, Vec<(u8, u8)>)>) -> bool {
    forall|i: int| 0 <= i < found.len() ==> dict.contains(#[trigger] found[i].0@)
}

/// Every recorded path is non-empty, lies on the board and reads its word.
pub open spec fn paths_spell(board: Seq<&str>, found: Seq<(String, Vec<(u8, u8)>)>) -> bool {
    forall|i: int|
        0 <= i < found.len() ==> (#[trigger] found[i]).1@.len() > 0 && all_on_board(board, found[i].1@)
            && word_of(board, found[i].1@) == found[i].0@
}

/// Every recorded path moves between neighbouring cells.
pub open spec fn paths_adjacent(found: Seq<(String, Vec<(u8, u8)>)>) -> bool {
    forall|i: int| 0 <= i < found.len() ==> steps_adjacent((#[trigger] found[i]).1@)
}

/// No recorded path uses a cell twice.
pub open spec fn paths_simple(found: Seq<(String, Vec<(u8, u8)>)>) -> bool {
    forall|i: int| 0 <= i < found.len() ==> cells_distinct((#[trigger] found[i]).1@)
}

pub open spec fn entries_ok(
    board: Seq<&str>,
    dict: Set<Seq<char>>,
    found: Seq<(String, Vec<(u8, u8)>)>,
) -> bool {
    &&& keys_distinct(found)
    &&& keys_legal(dict, found)
    &&& paths_spell(board, found)
    &&& paths_adjacent(found)
    &&& paths_simple(found)
}

/// `q` continues `path` with the cell (`row`, `col`).
pub open spec fn reaches(q: Seq<(u8, u8)>, path: Seq<(u8, u8)>, row: int, col: int) -> bool {
    &&& q.len() > path.len()
    &&& q.subrange(0, path.len() as int) == path
    &&& q[path.len() as int].0 as int == row
    &&& q[path.len() as int].1 as int == col
}

/// Every dictionary word spelled by a trail that continues `path` with
/// (`row`, `col`) is among `keys`.
pub open spec fn covered(
    board: Seq<&str>,
    dict: Set<Seq<char>>,
    keys: Set<Seq<char>>,
    path: Seq<(u8, u8)>,
    row: int,
    col: int,
) -> bool {
    forall|q: Seq<(u8, u8)>|
        #[trigger] reaches(q, path, row, col) && is_trail(board, q) && dict.contains(word_of(board, q))
            ==> keys.contains(word_of(board, q))
}

/// The dictionary words that some trail on the board spells.
pub open spec fn findable(board: Seq<&str>, dict: Set<Seq<char>>) -> Set<Seq<char>> {
    Set::new(
        |w: Seq<char>|
            dict.contains(w) && exists|q: Seq<(u8, u8)>|
                #[trigger] is_trail(board, q) && q.len() > 0 && word_of(board, q) == w,
    )
}

/// Position of cell (`r`, `c`) in the row-major marker vector.
pub open spec fn cell_index(board: Seq<&str>, r: int, c: int) -> int {
    r * cols(board) + c
}

/// `visited` marks exactly the cells of `path`.
pub open spec fn marks(board: Seq<&str>, visited: Seq<bool>, path: Seq<(u8, u8)>) -> bool {
    &&& visited.len() == rows(board) * cols(board)
    &&& forall|r: int, c: int|
        0 <= r < rows(board) && 0 <= c < cols(board) ==> visited[#[trigger] cell_index(board, r, c)]
            == path.contains((r as u8, c as u8))
}

/// How many cells are not marked.
pub open spec fn unmarked(s: Seq<bool>) -> nat
    decreases s.len(),
{
    if s.len() == 0 {
        0
    } else {
        unmarked(s.drop_last()) + if s.last() {
            0nat
        } else {
            1nat
        }
    }
}

/// The offset of direction `d`, in the order the search tries them.
pub open spec fn direction(d: int) -> (int, int) {
    if d == 0 {
        (-1, -1)
    } else if d == 1 {
        (-1, 0)
    } else if d == 2 {
        (-1, 1)
    } else if d == 3 {
        (0, -1)
    } else if d == 4 {
        (0, 1)
    } else if d == 5 {
        (1, -1)
    } else if d == 6 {
        (1, 0)
    } else {
        (1, 1)
    }
}


proof fn lemma_unmarked_update(s: Seq<bool>, i: int)
    requires
        0 <= i < s.len(),
        !s[i],
    ensures
        unmarked(s.update(i, true)) + 1 == unmarked(s),
    decreases s.len(),
{
    let t = s.update(i, true);
    if i == s.len() - 1 {
        assert(t.drop_last() =~= s.drop_last());
    } else {
        assert(t.drop_last() =~= s.drop_last().update(i, true));
        lemma_unmarked_update(s.drop_last(), i);
    }
}

proof fn lemma_cell_index(board: Seq<&str>, r: int, c: int, r2: int, c2: int)
    requires
        board_ok(board),
        0 <= r < rows(board),
        0 <= c < cols(board),
        0 <= r2 < rows(board),
        0 <= c2 < cols(board),
    ensures
        0 <= cell_index(board, r, c) < rows(board) * cols(board),
        cell_index(board, r, c) == cell_index(board, r2, c2) <==> (r == r2 && c == c2),
        rows(board) * cols(board) <= 65536,
{
    let n = cols(board);
    let m = rows(board);
    assert(0 <= r * n + c < m * n) by (nonlinear_arith)
        requires
            0 <= r < m,
            0 <= c < n,
    ;
    assert(r * n + c == r2 * n + c2 ==> (r == r2 && c == c2)) by (nonlinear_arith)
        requires
            0 <= c < n,
            0 <= c2 < n,
            0 <= r,
            0 <= r2,
    ;
    assert(m * n <= 65536) by (nonlinear_arith)
        requires
            0 < m <= 256,
            0 < n <= 256,
    ;
}

proof fn lemma_keys_grow(f1: Seq<(String, Vec<(u8, u8)>)>, f2: Seq<(String, Vec<(u8, u8)>)>)
    requires
        f1.len() <= f2.len(),
        forall|i: int| 0 <= i < f1.len() ==> f2[i] == f1[i],
    ensures
        keys_of(f1).subset_of(keys_of(f2)),
{
    assert forall|w: Seq<char>| keys_of(f1).contains(w) implies keys_of(f2).contains(w) by {
        let i = choose|i: int| 0 <= i < f1.len() && #[trigger] f1[i].0@ == w;
        assert(f2[i].0@ == w);
    }
}

proof fn lemma_covered_grows(
    board: Seq<&str>,
    dict: Set<Seq<char>>,
    k1: Set<Seq<char>>,
    k2: Set<Seq<char>>,
    path: Seq<(u8, u8)>,
    row: int,
    col: int,
)
    requires
        covered(board, dict, k1, path, row, col),
        k1.subset_of(k2),
    ensures
        covered(board, dict, k2, path, row, col),
{
}

/// A neighbour of `p` lies in one of the eight directions.
proof fn lemma_direction_of(p: (u8, u8), q: (u8, u8)) -> (d: int)
    requires
        neighbours(p, q),
    ensures
        0 <= d < 8,
        q.0 as int == p.0 as int + direction(d).0,
        q.1 as int == p.1 as int + direction(d).1,
{
    let dr = q.0 as int - p.0 as int;
    let dc = q.1 as int - p.1 as int;
    if dr == -1 {
        if dc == -1 { 0 } else if dc == 0 { 1 } else { 2 }
    } else if dr == 0 {
        if dc == -1 { 3 } else { 4 }
    } else {
        if dc == -1 { 5 } else if dc == 0 { 6 } else { 7 }
    }
}

/// The offset of direction `d`.
fn offset(d: usize) -> (r: (isize, isize))
    requires
        d < 8,
    ensures
        r.0 as int == direction(d as int).0,
        r.1 as int == direction(d as int).1,
{
    if d == 0 {
        (-1, -1)
    } else if d == 1 {
        (-1, 0)
    } else if d == 2 {
        (-1, 1)
    } else if d == 3 {
        (0, -1)
    } else if d == 4 {
        (0, 1)
    } else if d == 5 {
        (1, -1)
    } else if d == 6 {
        (1, 0)
    } else {
        (1, 1)
    }
}

fn copy_path(path: &Vec<(u8, u8)>) -> (r: Vec<(u8, u8)>)
    ensures
        r@ == path@,
{
    let mut r: Vec<(u8, u8)> = Vec::new();
    let mut i: usize = 0;
    while i < path.len()
        invariant
            i <= path@.len(),
            r@ == path@.subrange(0, i as int),
        decreases path@.len() - i,
    {
        r.push(path[i]);
        i = i + 1;
        assert(r@ =~= path@.subrange(0, i as int));
    }
    assert(r@ =~= path@);
    r
}

/// Records `word` with `path` unless `word` is already recorded.
fn record(
    found: &mut Vec<(String, Vec<(u8, u8)>)>,
    word: String,
    path: &Vec<(u8, u8)>,
    Ghost(board): Ghost<Seq<&str>>,
    Ghost(dict): Ghost<Set<Seq<char>>>,
)
    requires
        entries_ok(board, dict, old(found)@),
        dict.contains(word@),
        path@.len() > 0,
        is_trail(board, path@),
        word_of(board, path@) == word@,
    ensures
        entries_ok(board, dict, final(found)@),
        keys_of(final(found)@).contains(word@),
        old(found)@.len() <= final(found)@.len(),
        forall|i: int| 0 <= i < old(found)@.len() ==> final(found)@[i] == old(found)@[i],
{
    let mut i: usize = 0;
    while i < found.len()
        invariant
            i <= found@.len(),
            found@ == old(found)@,
            entries_ok(board, dict, found@),
            forall|j: int| 0 <= j < i ==> (#[trigger] found@[j]).0@ != word@,
        decreases found@.len() - i,
    {
        if found[i].0 == word {
            assert(found@[i as int].0@ == word@);
            return;
        }
        i = i + 1;
    }
    let ghost f0 = found@;
    let p = copy_path(path);
    found.push((word, p));
    proof {
        let f = found@;
        assert(f[f0.len() as int].0@ == word@);
        assert forall|a: int, b: int|
            0 <= a < f.len() && 0 <= b < f.len() && a != b implies #[trigger] f[a].0@
                != #[trigger] f[b].0@ by {
            if a < f0.len() && b < f0.len() {
                assert(f0[a] == f[a] && f0[b] == f[b]);
            } else if a < f0.len() {
                assert(f0[a] == f[a]);
            } else if b < f0.len() {
                assert(f0[b] == f[b]);
            }
        }
        assert forall|a: int| 0 <= a < f.len() implies dict.contains(#[trigger] f[a].0@) by {
            if a < f0.len() {
                assert(f0[a] == f[a]);
            }
        }
        assert forall|a: int|
            0 <= a < f.len() implies (#[trigger] f[a]).1@.len() > 0 && all_on_board(board, f[a].1@)
                && word_of(board, f[a].1@) == f[a].0@ by {
            if a < f0.len() {
                assert(f0[a] == f[a]);
            }
        }
        assert forall|a: int| 0 <= a < f.len() implies steps_adjacent((#[trigger] f[a]).1@) by {
            if a < f0.len() {
                assert(f0[a] == f[a]);
            }
        }
        assert forall|a: int| 0 <= a < f.len() implies cells_distinct((#[trigger] f[a]).1@) by {
            if a < f0.len() {
                assert(f0[a] == f[a]);
            }
        }
    }
}


/// Explores from cell (`row`, `col`), having spelled `word` along `path`: records
/// every dictionary word that a trail continuing `path` through this cell spells,
/// and leaves `visited` and `path` as it found them.
pub fn search(
    trie: &TrieNode,
    board: &[&str],
    row: isize,
    col: isize,
    word: String,
    visited: &mut Vec<bool>,
    path: &mut Vec<(u8, u8)>,
    found: &mut Vec<(String, Vec<(u8, u8)>)>,
)
    requires
        trie.wf(),
        board_ok(board@),
        -1 <= row <= 256,
        -1 <= col <= 256,
        marks(board@, old(visited)@, old(path)@),
        is_trail(board@, old(path)@),
        word@ == word_of(board@, old(path)@),
        old(path)@.len() > 0 ==> -1 <= row - old(path)@.last().0 <= 1 && -1 <= col - old(
            path,
        )@.last().1 <= 1,
        entries_ok(board@, trie@, old(found)@),
    ensures
        final(visited)@ == old(visited)@,
        final(path)@ == old(path)@,
        entries_ok(board@, trie@, final(found)@),
        old(found)@.len() <= final(found)@.len(),
        forall|i: int| 0 <= i < old(found)@.len() ==> final(found)@[i] == old(found)@[i],
        covered(board@, trie@, keys_of(final(found)@), old(path)@, row as int, col as int),
    decreases unmarked(old(visited)@),
{
    let ghost b = board@;
    let ghost dict = trie@;
    let ghost path0 = path@;
    let ghost vis0 = visited@;
    let ghost n = path0.len() as int;
    let nrows = board.len();
    let ncols = board[0].unicode_len();
    if row < 0 || col < 0 || row >= nrows as isize || col >= ncols as isize {
        proof {
            assert forall|q: Seq<(u8, u8)>|
                #[trigger] reaches(q, path0, row as int, col as int) && is_trail(b, q) implies false by {
                assert(on_board(b, q[n]));
            }
        }
        return;
    }
    let r = row as usize;
    let c = col as usize;
    let ghost cell = (r as u8, c as u8);
    proof {
        lemma_cell_index(b, r as int, c as int, 0, 0);
    }
    let idx = r * ncols + c;
    assert(idx as int == cell_index(b, r as int, c as int));
    if visited[idx] {
        proof {
            assert(path0.contains(cell));
            let k = choose|k: int| 0 <= k < n && path0[k] == cell;
            assert forall|q: Seq<(u8, u8)>|
                #[trigger] reaches(q, path0, row as int, col as int) && is_trail(b, q) implies false by {
                assert(q.subrange(0, n)[k] == q[k]);
                assert(q[k] == q[n]);
            }
        }
        return;
    }
    let line: &str = board[r];
    if c >= line.unicode_len() {
        proof {
            assert forall|q: Seq<(u8, u8)>|
                #[trigger] reaches(q, path0, row as int, col as int) && is_trail(b, q) implies false by {
                assert(on_board(b, q[n]));
            }
        }
        return;
    }
    let piece = line.substring_char(c, c + 1);
    let new_word = word.concat(piece);
    proof {
        assert(piece@ =~= seq![letter(b, cell)]);
        assert(word_of(b, path0.push(cell)) =~= word_of(b, path0).push(letter(b, cell)));
        assert(new_word@ =~= word_of(b, path0.push(cell)));
    }
    if !trie.contains_prefix(new_word.as_str()) {
        proof {
            assert forall|q: Seq<(u8, u8)>|
                #[trigger] reaches(q, path0, row as int, col as int) && is_trail(b, q) implies !dict.contains(
                word_of(b, q),
            ) by {
                assert(q.subrange(0, n + 1) =~= path0.push(cell));
                assert(word_of(b, q).subrange(0, n + 1) =~= word_of(b, q.subrange(0, n + 1)));
                if dict.contains(word_of(b, q)) {
                    assert(is_prefix(new_word@, word_of(b, q)));
                }
            }
        }
        return;
    }
    proof {
        assert(!path0.contains(cell));
        lemma_unmarked_update(vis0, idx as int);
    }
    path.push((r as u8, c as u8));
    proof {
        let p = path@;
        assert(p =~= path0.push(cell));
        assert forall|a: int, bb: int|
            0 <= a && bb == a + 1 && bb < p.len() implies neighbours(#[trigger] p[a], #[trigger] p[bb]) by {
            if bb < n {
                assert(p[a] == path0[a] && p[bb] == path0[bb]);
            } else {
                assert(p[a] == path0.last());
                assert(path0.contains(path0[a]));
            }
        }
        assert forall|a: int, bb: int|
            0 <= a < p.len() && 0 <= bb < p.len() && a != bb implies #[trigger] p[a] != #[trigger] p[bb] by {
            if a < n && bb < n {
                assert(p[a] == path0[a] && p[bb] == path0[bb]);
            } else if a < n {
                assert(path0.contains(path0[a]));
            } else {
                assert(path0.contains(path0[bb]));
            }
        }
        assert(is_trail(b, p));
    }
    let ghost f0 = found@;
    if trie.contains_word(new_word.as_str()) {
        record(found, new_word.clone(), path, Ghost(b), Ghost(dict));
    }
    visited.set(idx, true);
    proof {
        let v = visited@;
        let p = path@;
        assert forall|r2: int, c2: int| 0 <= r2 < rows(b) && 0 <= c2 < cols(b) implies v[
            #[trigger] cell_index(b, r2, c2)] == p.contains((r2 as u8, c2 as u8)) by {
            lemma_cell_index(b, r as int, c as int, r2, c2);
            lemma_cell_index(b, r2, c2, r as int, c as int);
            assert(vis0[cell_index(b, r2, c2)] == path0.contains((r2 as u8, c2 as u8)));
            if r2 == r && c2 == c {
                assert(p[n] == cell);
                assert(v[cell_index(b, r2, c2)]);
            } else {
                assert(v[cell_index(b, r2, c2)] == vis0[cell_index(b, r2, c2)]);
                assert((r2 as u8, c2 as u8) != cell);
                if path0.contains((r2 as u8, c2 as u8)) {
                    let k = choose|k: int| 0 <= k < n && path0[k] == (r2 as u8, c2 as u8);
                    assert(p[k] == path0[k]);
                }
                if p.contains((r2 as u8, c2 as u8)) {
                    let k = choose|k: int| 0 <= k < p.len() && p[k] == (r2 as u8, c2 as u8);
                    assert(path0[k] == p[k]);
                }
            }
        }
    }
    let mut d: usize = 0;
    while d < 8
        invariant
            trie.wf(),
            b == board@,
            dict == trie@,
            board_ok(b),
            r == row,
            c == col,
            (r as int) < rows(b),
            (c as int) < cols(b),
            cell == (r as u8, c as u8),
            n == path0.len(),
            vis0 == old(visited)@,
            (idx as int) < vis0.len(),
            visited@ == vis0.update(idx as int, true),
            unmarked(visited@) < unmarked(vis0),
            path@ == path0.push(cell),
            new_word@ == word_of(b, path@),
            is_trail(b, path@),
            marks(b, visited@, path@),
            entries_ok(b, dict, found@),
            f0.len() <= found@.len(),
            forall|i: int| 0 <= i < f0.len() ==> found@[i] == f0[i],
            dict.contains(new_word@) ==> keys_of(found@).contains(new_word@),
            forall|e: int|
                0 <= e < d ==> covered(
                    b,
                    dict,
                    keys_of(found@),
                    path@,
                    r + (#[trigger] direction(e)).0,
                    c + direction(e).1,
                ),
        decreases 8 - d,
    {
        let (dr, dc) = offset(d);
        let ghost before = found@;
        search(trie, board, row + dr, col + dc, new_word.clone(), visited, path, found);
        proof {
            lemma_keys_grow(before, found@);
            assert forall|e: int| 0 <= e < d + 1 implies covered(
                b,
                dict,
                keys_of(found@),
                path@,
                r + (#[trigger] direction(e)).0,
                c + direction(e).1,
            ) by {
                if e < d {
                    lemma_covered_grows(b, dict, keys_of(before), keys_of(found@), path@, r + direction(e).0, c + direction(e).1);
                }
            }
            if dict.contains(new_word@) {
                assert(keys_of(before).contains(new_word@));
            }
        }
        d = d + 1;
    }
    visited.set(idx, false);
    path.pop();
    proof {
        assert(visited@ =~= vis0);
        assert(path@ =~= path0);
        let keys = keys_of(found@);
        let p1 = path0.push(cell);
        assert forall|q: Seq<(u8, u8)>|
            #[trigger] reaches(q, path0, row as int, col as int) && is_trail(b, q) && dict.contains(
                word_of(b, q),
            ) implies keys.contains(word_of(b, q)) by {
            assert(q.subrange(0, n + 1) =~= p1);
            if q.len() == n + 1 {
                assert(q =~= p1);
            } else {
                assert(neighbours(q[n], q[n + 1]));
                let e = lemma_direction_of(q[n], q[n + 1]);
                assert(reaches(q, p1, r + direction(e).0, c + direction(e).1));
            }
        }
    }
}


/// Every dictionary word spelled by a non-empty trail that starts in a row
/// above `x`, or in row `x` left of column `y`, is among `keys`.
pub open spec fn covered_before(
    board: Seq<&str>,
    dict: Set<Seq<char>>,
    keys: Set<Seq<char>>,
    x: int,
    y: int,
) -> bool {
    forall|q: Seq<(u8, u8)>|
        #[trigger] is_trail(board, q) && q.len() > 0 && dict.contains(word_of(board, q)) && (
        q[0].0 < x || (q[0].0 == x && q[0].1 < y)) ==> keys.contains(word_of(board, q))
}

/// What a search of `board` for the words of `dict` returns: each word once,
/// each a dictionary word, each with a trail on the board that spells it, and
/// the words recorded are exactly those that some trail spells.
pub open spec fn is_search_result(
    board: Seq<&str>,
    dict: Set<Seq<char>>,
    found: Seq<(String, Vec<(u8, u8)>)>,
) -> bool {
    &&& entries_ok(board, dict, found)
    &&& keys_of(found) == findable(board, dict)
}

/// Finds every word of `words` that a trail on `board` spells, each with the
/// first trail found for it.
pub fn boggle(board: &[&str], words: &[String]) -> (found: Vec<(String, Vec<(u8, u8)>)>)
    requires
        board_ok(board@),
    ensures
        keys_distinct(found@),
        keys_legal(word_set(words@), found@),
        paths_spell(board@, found@),
        paths_adjacent(found@),
        paths_simple(found@),
        keys_of(found@) == findable(board@, word_set(words@)),
        is_search_result(board@, word_set(words@), found@),
{
    let ghost b = board@;
    let trie = build_trie(words);
    let ghost dict = trie@;
    let nrows = board.len();
    let ncols = board[0].unicode_len();
    proof {
        lemma_cell_index(b, 0, 0, 0, 0);
    }
    let mut visited: Vec<bool> = vec![false; nrows * ncols];
    let mut path: Vec<(u8, u8)> = Vec::new();
    let mut found: Vec<(String, Vec<(u8, u8)>)> = Vec::new();
    proof {
        assert forall|r: int, c: int| 0 <= r < rows(b) && 0 <= c < cols(b) implies visited@[
            #[trigger] cell_index(b, r, c)] == path@.contains((r as u8, c as u8)) by {
            lemma_cell_index(b, r, c, 0, 0);
        }
        assert(word_of(b, path@) =~= Seq::<char>::empty());
    }
    let mut x: usize = 0;
    while x < nrows
        invariant
            b == board@,
            dict == trie@,
            dict == word_set(words@),
            trie.wf(),
            board_ok(b),
            nrows as int == rows(b),
            ncols as int == cols(b),
            x <= nrows,
            marks(b, visited@, path@),
            path@ == Seq::<(u8, u8)>::empty(),
            entries_ok(b, dict, found@),
            covered_before(b, dict, keys_of(found@), x as int, 0),
        decreases nrows - x,
    {
        let mut y: usize = 0;
        while y < ncols
            invariant
                b == board@,
                dict == trie@,
                trie.wf(),
                board_ok(b),
                nrows as int == rows(b),
                ncols as int == cols(b),
                x < nrows,
                y <= ncols,
                marks(b, visited@, path@),
                path@ == Seq::<(u8, u8)>::empty(),
                entries_ok(b, dict, found@),
                covered_before(b, dict, keys_of(found@), x as int, y as int),
            decreases ncols - y,
        {
            let ghost before = found@;
            let start = String::new();
            proof {
                assert(word_of(b, path@) =~= start@);
            }
            search(&trie, board, x as isize, y as isize, start, &mut visited, &mut path, &mut found);
            proof {
                let keys = keys_of(found@);
                lemma_keys_grow(before, found@);
                assert forall|q: Seq<(u8, u8)>|
                    #[trigger] is_trail(b, q) && q.len() > 0 && dict.contains(word_of(b, q)) && (q[0].0
                        < x || (q[0].0 == x && q[0].1 < y + 1)) implies keys.contains(word_of(b, q)) by {
                    if q[0].0 < x || (q[0].0 == x && q[0].1 < y) {
                        assert(keys_of(before).contains(word_of(b, q)));
                    } else {
                        assert(q.subrange(0, 0) =~= path@);
                        assert(reaches(q, path@, x as int, y as int));
                    }
                }
            }
            y = y + 1;
        }
        proof {
            let keys = keys_of(found@);
            assert forall|q: Seq<(u8, u8)>|
                #[trigger] is_trail(b, q) && q.len() > 0 && dict.contains(word_of(b, q)) && (q[0].0 < x
                    + 1 || (q[0].0 == x + 1 && q[0].1 < 0)) implies keys.contains(word_of(b, q)) by {
                assert(on_board(b, q[0]));
            }
        }
        x = x + 1;
    }
    proof {
        let keys = keys_of(found@);
        let f = found@;
        assert forall|w: Seq<char>| keys.contains(w) == findable(b, dict).contains(w) by {
            if keys.contains(w) {
                let i = choose|i: int| 0 <= i < f.len() && #[trigger] f[i].0@ == w;
                let q = f[i].1@;
                assert(is_trail(b, q));
            }
            if findable(b, dict).contains(w) {
                let q = choose|q: Seq<(u8, u8)>| #[trigger] is_trail(b, q) && q.len() > 0 && word_of(b, q) == w;
                assert(on_board(b, q[0]));
            }
        }
        assert(keys =~= findable(b, dict));
    }
    found
}

/// Repeated searches of one board for one dictionary record the same set of
/// words, whichever trails they keep.
pub proof fn lemma_same_words(
    board: Seq<&str>,
    dict: Set<Seq<char>>,
    first: Seq<(String, Vec<(u8, u8)>)>,
    second: Seq<(String, Vec<(u8, u8)>)>,
)
    requires
        is_search_result(board, dict, first),
        is_search_result(board, dict, second),
    ensures
        keys_of(first) == keys_of(second),
{
}

/// A word absent from the dictionary is never recorded.
pub proof fn lemma_only_dictionary_words(
    board: Seq<&str>,
    dict: Set<Seq<char>>,
    found: Seq<(String, Vec<(u8, u8)>)>,
    w: Seq<char>,
)
    requires
        is_search_result(board, dict, found),
        !dict.contains(w),
    ensures
        !keys_of(found).contains(w),
{
}

} // verus!
