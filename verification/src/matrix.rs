//! Cipher matrix construction: deduplicate the canonicalized keyword,
//! append the remaining alphabet symbols in canonical order, and lay the
//! sequence into a 5-column grid, padding an incomplete final row with the
//! filler symbol `X`. Also the row-major position lookup the codec uses.

use vstd::prelude::*;
use crate::alphabet::{
    AlphabetVariant, alphabet_seq, alphabet_len, alphabet_symbol, spec_alphabet_len,
    canon_seq, canon_char, to_canon, text_in_class, valid_keyword, validate_key,
    lemma_alphabet_no_duplicates,
};
use crate::strutil::{str_to_chars, chars_to_string};

verus! {

/// Errors the cipher layer reports.
#[derive(Clone, Copy, PartialEq, Eq, Structural, Debug)]
pub enum CipherError {
    /// Keyword shorter than the minimum length or containing a character
    /// outside the alphabet's letter class.
    InvalidKeyword,
    /// Message containing a character outside the alphabet's letter
    /// class, or a ciphertext of odd length handed to decoding.
    InvalidMessage,
}

/// The number of columns of every cipher matrix.
pub const GRID_WIDTH: usize = 5;

/// The filler symbol used to complete an incomplete final row.
pub const FILLER: char = 'X';

/// First-occurrence deduplication of a character sequence.
pub open spec fn dedup_spec(s: Seq<char>) -> Seq<char>
    decreases s.len(),
{
    if s.len() == 0 {
        Seq::empty()
    } else {
        let prefix = dedup_spec(s.drop_last());
        if s.drop_last().contains(s.last()) {
            prefix
        } else {
            prefix.push(s.last())
        }
    }
}

/// Deduplication keeps exactly the members of the input.
pub proof fn lemma_dedup_membership(s: Seq<char>, c: char)
    ensures
        dedup_spec(s).contains(c) <==> s.contains(c),
    decreases s.len(),
{
    if s.len() > 0 {
        lemma_dedup_membership(s.drop_last(), c);
        assert(s.contains(c) <==> (s.drop_last().contains(c) || s.last() == c)) by {
            if s.contains(c) {
                let i = choose|i: int| 0 <= i < s.len() && s[i] == c;
                if i < s.len() - 1 {
                    assert(s.drop_last()[i] == c);
                }
            }
            if s.drop_last().contains(c) {
                let i = choose|i: int| 0 <= i < s.drop_last().len() && s.drop_last()[i] == c;
                assert(s[i] == c);
            }
            if s.last() == c {
                assert(s[s.len() - 1] == c);
            }
        }
        let prefix = dedup_spec(s.drop_last());
        if !s.drop_last().contains(s.last()) {
            assert(prefix.push(s.last()).contains(c) <==> (prefix.contains(c) || s.last() == c))
                by {
                if prefix.contains(c) {
                    let i = choose|i: int| 0 <= i < prefix.len() && prefix[i] == c;
                    assert(prefix.push(s.last())[i] == c);
                }
                assert(prefix.push(s.last())[prefix.len() as int] == s.last());
                if prefix.push(s.last()).contains(c) {
                    let i = choose|i: int|
                        0 <= i < prefix.push(s.last()).len() && prefix.push(s.last())[i] == c;
                    if i < prefix.len() {
                        assert(prefix[i] == c);
                    }
                }
            }
        }
    }
}

/// Deduplication yields a duplicate-free sequence.
pub proof fn lemma_dedup_no_duplicates(s: Seq<char>)
    ensures
        dedup_spec(s).no_duplicates(),
    decreases s.len(),
{
    if s.len() > 0 {
        lemma_dedup_no_duplicates(s.drop_last());
        let prefix = dedup_spec(s.drop_last());
        if !s.drop_last().contains(s.last()) {
            lemma_dedup_membership(s.drop_last(), s.last());
            assert(!prefix.contains(s.last()));
            let pushed = prefix.push(s.last());
            assert forall|i: int, j: int|
                0 <= i < pushed.len() && 0 <= j < pushed.len() && i != j
                implies pushed[i] != pushed[j] by {
                if i < prefix.len() && j < prefix.len() {
                    assert(prefix[i] == pushed[i] && prefix[j] == pushed[j]);
                } else if i < prefix.len() {
                    assert(prefix[i] == pushed[i]);
                    assert(!prefix.contains(s.last()));
                    assert(prefix[i] != s.last());
                } else {
                    assert(prefix[j] == pushed[j]);
                    assert(prefix[j] != s.last());
                }
            }
        }
    }
}

/// The effective symbol sequence of a keyword under a variant:
/// first-occurrence deduplication of the canonicalized keyword followed
/// by the alphabet in canonical order.
pub open spec fn matrix_chars(v: AlphabetVariant, k: Seq<char>) -> Seq<char> {
    dedup_spec(canon_seq(k) + alphabet_seq(v))
}

/// A run of filler symbols.
pub open spec fn filler_run(n: int) -> Seq<char> {
    Seq::new(n as nat, |i: int| FILLER)
}

/// Lay a symbol sequence into rows of five, padding an incomplete final
/// row with the filler symbol.
pub open spec fn rows_spec(cs: Seq<char>) -> Seq<Seq<char>>
    decreases cs.len(),
{
    if cs.len() == 0 {
        Seq::empty()
    } else if cs.len() < 5 {
        seq![cs + filler_run(5 - cs.len())]
    } else {
        seq![cs.take(5)] + rows_spec(cs.skip(5))
    }
}

/// The grid a valid keyword builds.
pub open spec fn grid_spec(v: AlphabetVariant, k: Seq<char>) -> Seq<Seq<char>> {
    rows_spec(matrix_chars(v, k))
}

/// The mathematical view of an executable grid: each row as a sequence.
pub open spec fn grid_view(m: Seq<Vec<char>>) -> Seq<Seq<char>> {
    Seq::new(m.len(), |i: int| m[i]@)
}

/// A grid shaped as the codec expects: at least one row, five columns each.
pub open spec fn is_rect(g: Seq<Seq<char>>) -> bool {
    g.len() >= 1 && forall|i: int| 0 <= i < g.len() ==> (#[trigger] g[i]).len() == 5
}

/// No symbol occurs in two distinct cells.
pub open spec fn unique_cells(g: Seq<Seq<char>>) -> bool {
    forall|r1: int, c1: int, r2: int, c2: int|
        0 <= r1 < g.len() && 0 <= c1 < g[r1].len() && 0 <= r2 < g.len() && 0 <= c2 < g[r2].len()
            && #[trigger] g[r1][c1] == #[trigger] g[r2][c2] ==> r1 == r2 && c1 == c2
}

/// Some cell of the grid holds the symbol.
pub open spec fn grid_has(g: Seq<Seq<char>>, c: char) -> bool {
    exists|r: int, cl: int| 0 <= r < g.len() && 0 <= cl < g[r].len() && #[trigger] g[r][cl] == c
}

/// A well-formed cipher grid for a variant: rectangular with five
/// columns, holding every alphabet symbol exactly once and nothing else.
pub open spec fn well_formed(g: Seq<Seq<char>>, v: AlphabetVariant) -> bool {
    &&& is_rect(g)
    &&& g.len() == spec_alphabet_len(v) / 5
    &&& unique_cells(g)
    &&& forall|c: char| grid_has(g, c) <==> alphabet_seq(v).contains(c)
}

/// Index of the first occurrence of `c` in `row` at or after `j`.
pub open spec fn find_in_row_from(row: Seq<char>, c: char, j: int) -> Option<int>
    decreases row.len() - j,
{
    if j < 0 || j >= row.len() {
        None
    } else if row[j] == c {
        Some(j)
    } else {
        find_in_row_from(row, c, j + 1)
    }
}

/// Row-major position of the first occurrence of `c` in rows `r` onward.
pub open spec fn find_pos_from(g: Seq<Seq<char>>, c: char, r: int) -> Option<(int, int)>
    decreases g.len() - r,
{
    if r < 0 || r >= g.len() {
        None
    } else {
        match find_in_row_from(g[r], c, 0) {
            Some(j) => Some((r, j)),
            None => find_pos_from(g, c, r + 1),
        }
    }
}

/// Row-major position of the first occurrence of `c` in the grid.
pub open spec fn find_pos_spec(g: Seq<Seq<char>>, c: char) -> Option<(int, int)> {
    find_pos_from(g, c, 0)
}

/// A found in-row index is in range and holds the symbol.
pub proof fn lemma_find_in_row_from_some(row: Seq<char>, c: char, j: int)
    requires
        find_in_row_from(row, c, j) is Some,
    ensures
        j <= find_in_row_from(row, c, j)->0 < row.len(),
        row[find_in_row_from(row, c, j)->0] == c,
    decreases row.len() - j,
{
    if !(j < 0 || j >= row.len()) && row[j] != c {
        lemma_find_in_row_from_some(row, c, j + 1);
    }
}

/// The first occurrence at or after `j` is found exactly.
pub proof fn lemma_find_in_row_from_found(row: Seq<char>, c: char, j: int, k: int)
    requires
        0 <= j <= k < row.len(),
        row[k] == c,
        forall|l: int| j <= l < k ==> row[l] != c,
    ensures
        find_in_row_from(row, c, j) == Some(k),
    decreases k - j,
{
    if j < k {
        lemma_find_in_row_from_found(row, c, j + 1, k);
    }
}

/// A found grid position is in range and holds the symbol.
pub proof fn lemma_find_pos_from_some(g: Seq<Seq<char>>, c: char, i: int)
    ensures
        find_pos_from(g, c, i) matches Some(p) ==> i <= p.0 < g.len() && 0 <= p.1 < g[p.0].len()
            && g[p.0][p.1] == c,
    decreases g.len() - i,
{
    if !(i < 0 || i >= g.len()) {
        if find_in_row_from(g[i], c, 0) is Some {
            lemma_find_in_row_from_some(g[i], c, 0);
        } else {
            lemma_find_pos_from_some(g, c, i + 1);
        }
    }
}

proof fn lemma_find_pos_from_unique(g: Seq<Seq<char>>, c: char, i: int, r: int, cl: int)
    requires
        unique_cells(g),
        0 <= i <= r < g.len(),
        0 <= cl < g[r].len(),
        g[r][cl] == c,
    ensures
        find_pos_from(g, c, i) == Some((r, cl)),
    decreases r - i,
{
    if i < r {
        if find_in_row_from(g[i], c, 0) is Some {
            lemma_find_in_row_from_some(g[i], c, 0);
            let j = find_in_row_from(g[i], c, 0)->0;
            assert(g[i][j] == g[r][cl]);
            assert(false);
        }
        lemma_find_pos_from_unique(g, c, i + 1, r, cl);
    } else {
        assert forall|l: int| 0 <= l < cl implies g[r][l] != c by {
            if g[r][l] == c {
                assert(g[r][l] == g[r][cl]);
            }
        }
        lemma_find_in_row_from_found(g[r], c, 0, cl);
    }
}

/// In a grid without repeated symbols, lookup of a symbol that stands in
/// some cell returns exactly that cell.
pub proof fn lemma_find_pos_unique(g: Seq<Seq<char>>, c: char, r: int, cl: int)
    requires
        unique_cells(g),
        0 <= r < g.len(),
        0 <= cl < g[r].len(),
        g[r][cl] == c,
    ensures
        find_pos_spec(g, c) == Some((r, cl)),
{
    lemma_find_pos_from_unique(g, c, 0, r, cl);
}

/// Row-major scan for a symbol: the first (by the grid's invariant, only)
/// cell holding it, or `None` when it is absent.
pub fn find_position(matrix: &Vec<Vec<char>>, c: char) -> (r: Option<(usize, usize)>)
    ensures
        match r {
            Some(p) => find_pos_spec(grid_view(matrix@), c) == Some((p.0 as int, p.1 as int)),
            None => find_pos_spec(grid_view(matrix@), c) is None,
        },
{
    let ghost g = grid_view(matrix@);
    let mut i: usize = 0;
    while i < matrix.len()
        invariant
            i <= matrix@.len(),
            g == grid_view(matrix@),
            find_pos_spec(g, c) == find_pos_from(g, c, i as int),
        decreases matrix@.len() - i,
    {
        let row = &matrix[i];
        let mut j: usize = 0;
        while j < row.len()
            invariant
                j <= row@.len(),
                i < matrix@.len(),
                g == grid_view(matrix@),
                row@ == g[i as int],
                find_pos_spec(g, c) == find_pos_from(g, c, i as int),
                find_in_row_from(g[i as int], c, 0) == find_in_row_from(g[i as int], c, j as int),
            decreases row@.len() - j,
        {
            if row[j] == c {
                proof {
                    assert(find_in_row_from(g[i as int], c, j as int) == Some(j as int));
                }
                return Some((i, j));
            }
            j += 1;
        }
        proof {
            assert(find_in_row_from(g[i as int], c, j as int) is None);
        }
        i += 1;
    }
    None
}

/// Concatenation holds a character exactly when one of its parts does.
pub proof fn lemma_concat_membership(a: Seq<char>, b: Seq<char>, c: char)
    ensures
        (a + b).contains(c) <==> a.contains(c) || b.contains(c),
{
    if a.contains(c) {
        let i = choose|i: int| 0 <= i < a.len() && a[i] == c;
        assert((a + b)[i] == c);
    }
    if b.contains(c) {
        let i = choose|i: int| 0 <= i < b.len() && b[i] == c;
        assert((a + b)[a.len() + i] == c);
    }
    if (a + b).contains(c) {
        let i = choose|i: int| 0 <= i < (a + b).len() && (a + b)[i] == c;
        if i < a.len() {
            assert(a[i] == c);
        } else {
            assert(b[i - a.len()] == c);
        }
    }
}

/// The effective symbol sequence holds exactly the alphabet's symbols,
/// without duplicates, as many as the alphabet has.
pub proof fn lemma_matrix_chars_complete(v: AlphabetVariant, k: Seq<char>)
    requires
        text_in_class(v, k),
    ensures
        matrix_chars(v, k).no_duplicates(),
        forall|c: char| matrix_chars(v, k).contains(c) <==> alphabet_seq(v).contains(c),
        matrix_chars(v, k).len() == spec_alphabet_len(v),
{
    let combined = canon_seq(k) + alphabet_seq(v);
    let mc = matrix_chars(v, k);
    lemma_dedup_no_duplicates(combined);
    assert forall|c: char| mc.contains(c) <==> alphabet_seq(v).contains(c) by {
        lemma_dedup_membership(combined, c);
        lemma_concat_membership(canon_seq(k), alphabet_seq(v), c);
        if canon_seq(k).contains(c) {
            let i = choose|i: int| 0 <= i < canon_seq(k).len() && canon_seq(k)[i] == c;
            assert(canon_seq(k)[i] == canon_char(k[i]));
            assert(crate::alphabet::char_in_class(v, k[i]));
        }
    }
    lemma_alphabet_no_duplicates(v);
    assert(mc.to_set() =~= alphabet_seq(v).to_set());
    mc.unique_seq_to_set();
    alphabet_seq(v).unique_seq_to_set();
}

/// Structure of the laid-out rows when the symbol count is a multiple of
/// five: `len/5` rows of five, cell `(i, j)` holding symbol `5*i + j`.
pub proof fn lemma_rows_structure(cs: Seq<char>)
    requires
        cs.len() % 5 == 0,
    ensures
        rows_spec(cs).len() == cs.len() / 5,
        forall|i: int| 0 <= i < rows_spec(cs).len() ==> (#[trigger] rows_spec(cs)[i]).len() == 5,
        forall|i: int, j: int|
            0 <= i < rows_spec(cs).len() && 0 <= j < 5 ==> rows_spec(cs)[i][j] == cs[5 * i + j],
    decreases cs.len(),
{
    if cs.len() > 0 {
        assert(cs.len() >= 5);
        let tail = cs.skip(5);
        assert(tail.len() % 5 == 0) by {
            assert(tail.len() == cs.len() - 5);
        }
        lemma_rows_structure(tail);
        assert(rows_spec(cs) == seq![cs.take(5)] + rows_spec(tail));
        assert forall|i: int, j: int|
            0 <= i < rows_spec(cs).len() && 0 <= j < 5 implies rows_spec(cs)[i][j] == cs[5 * i
            + j] by {
            if i == 0 {
                assert(rows_spec(cs)[0] == cs.take(5));
            } else {
                assert(rows_spec(cs)[i] == rows_spec(tail)[i - 1]);
                assert(rows_spec(tail)[i - 1][j] == tail[5 * (i - 1) + j]);
                assert(tail[5 * (i - 1) + j] == cs[5 * i + j]);
            }
        }
    }
}

/// A valid keyword's grid is well-formed: rectangular with five columns,
/// every alphabet symbol in exactly one cell, and no other symbols.
pub proof fn lemma_grid_spec_well_formed(v: AlphabetVariant, k: Seq<char>)
    requires
        text_in_class(v, k),
    ensures
        well_formed(grid_spec(v, k), v),
{
    let mc = matrix_chars(v, k);
    let g = grid_spec(v, k);
    lemma_matrix_chars_complete(v, k);
    assert(mc.len() % 5 == 0);
    lemma_rows_structure(mc);
    assert(g.len() == spec_alphabet_len(v) / 5);
    assert(g.len() >= 1);
    assert forall|r1: int, c1: int, r2: int, c2: int|
        0 <= r1 < g.len() && 0 <= c1 < g[r1].len() && 0 <= r2 < g.len() && 0 <= c2 < g[r2].len()
            && #[trigger] g[r1][c1] == #[trigger] g[r2][c2] implies r1 == r2 && c1 == c2 by {
        assert(g[r1][c1] == mc[5 * r1 + c1]);
        assert(g[r2][c2] == mc[5 * r2 + c2]);
        if 5 * r1 + c1 != 5 * r2 + c2 {
            assert(mc[5 * r1 + c1] != mc[5 * r2 + c2]);
        }
    }
    assert forall|c: char| grid_has(g, c) <==> alphabet_seq(v).contains(c) by {
        if grid_has(g, c) {
            let (r, cl) = choose|r: int, cl: int|
                0 <= r < g.len() && 0 <= cl < g[r].len() && #[trigger] g[r][cl] == c;
            assert(g[r][cl] == mc[5 * r + cl]);
            assert(mc.contains(c));
        }
        if alphabet_seq(v).contains(c) {
            assert(mc.contains(c));
            let i = choose|i: int| 0 <= i < mc.len() && mc[i] == c;
            let r = i / 5;
            let cl = i % 5;
            assert(i == 5 * r + cl && 0 <= cl < 5 && 0 <= r < g.len()) by (nonlinear_arith)
                requires
                    0 <= i < mc.len(),
                    mc.len() == 5 * g.len(),
                    r == i / 5,
                    cl == i % 5,
            ;
            assert(g[r][cl] == c);
        }
    }
}

/// Whether a vector of characters contains a character.
pub fn vec_contains(v: &Vec<char>, c: char) -> (r: bool)
    ensures
        r == v@.contains(c),
{
    let mut i: usize = 0;
    while i < v.len()
        invariant
            i <= v@.len(),
            forall|j: int| 0 <= j < i ==> v@[j] != c,
        decreases v@.len() - i,
    {
        if v[i] == c {
            return true;
        }
        i += 1;
    }
    false
}

/// First-occurrence deduplication of a vector of characters.
fn dedup_chars(s: &Vec<char>) -> (r: Vec<char>)
    ensures
        r@ == dedup_spec(s@),
{
    let mut result: Vec<char> = Vec::new();
    let mut i: usize = 0;
    while i < s.len()
        invariant
            i <= s@.len(),
            result@ == dedup_spec(s@.take(i as int)),
        decreases s@.len() - i,
    {
        let c = s[i];
        proof {
            lemma_dedup_membership(s@.take(i as int), c);
            assert(s@.take(i + 1).drop_last() =~= s@.take(i as int));
            assert(s@.take(i + 1).last() == c);
        }
        if !vec_contains(&result, c) {
            result.push(c);
        }
        i += 1;
    }
    proof {
        assert(s@.take(s@.len() as int) =~= s@);
    }
    result
}

/// Remove duplicate characters from a string, keeping the first
/// occurrence of each and the original order.
pub fn remove_duplicates(key: &str) -> (r: String)
    ensures
        r@ == dedup_spec(key@),
{
    let chars = str_to_chars(key);
    let deduped = dedup_chars(&chars);
    chars_to_string(&deduped)
}

/// Build the cipher matrix for a keyword. Fails with `InvalidKeyword`
/// exactly when the keyword is shorter than 7 characters or holds a
/// character outside the variant's letter class; otherwise the grid is
/// the canonical layout of the keyword's effective symbol sequence.
pub fn create_matrix(key: &str, v: AlphabetVariant) -> (r: Result<Vec<Vec<char>>, CipherError>)
    ensures
        valid_keyword(v, key@) <==> r is Ok,
        r matches Ok(m) ==> grid_view(m@) == grid_spec(v, key@),
        r matches Err(e) ==> e == CipherError::InvalidKeyword,
{
    if !validate_key(key, v) {
        return Err(CipherError::InvalidKeyword);
    }
    let chars = str_to_chars(key);

    // Canonicalize the keyword and append the alphabet.
    let mut combined: Vec<char> = Vec::new();
    let mut i: usize = 0;
    while i < chars.len()
        invariant
            i <= chars@.len(),
            chars@ == key@,
            combined@ == canon_seq(key@.take(i as int)),
        decreases chars@.len() - i,
    {
        combined.push(to_canon(chars[i]));
        proof {
            assert(combined@ =~= canon_seq(key@.take(i + 1)));
        }
        i += 1;
    }
    proof {
        assert(canon_seq(key@.take(key@.len() as int)) =~= canon_seq(key@));
    }
    let n = alphabet_len(v);
    let mut j: usize = 0;
    while j < n
        invariant
            j <= n,
            n == spec_alphabet_len(v),
            combined@ == canon_seq(key@) + alphabet_seq(v).take(j as int),
        decreases n - j,
    {
        combined.push(alphabet_symbol(v, j));
        proof {
            assert(combined@ =~= canon_seq(key@) + alphabet_seq(v).take(j + 1));
        }
        j += 1;
    }
    proof {
        assert(canon_seq(key@) + alphabet_seq(v).take(n as int) =~= canon_seq(key@)
            + alphabet_seq(v));
    }

    // Deduplicate, keeping first occurrences.
    let cells = dedup_chars(&combined);

    // Lay the symbols into rows of five, padding the last row if needed.
    let mut matrix: Vec<Vec<char>> = Vec::new();
    let mut current_row: Vec<char> = Vec::new();
    let mut idx: usize = 0;
    proof {
        assert(cells@.skip(0) =~= cells@);
        assert(grid_view(matrix@) + rows_spec(cells@) =~= rows_spec(cells@));
        assert(current_row@ =~= cells@.subrange(0, 0));
    }
    while idx < cells.len()
        invariant
            idx <= cells@.len(),
            cells@ == matrix_chars(v, key@),
            idx == 5 * matrix@.len() + current_row@.len(),
            current_row@.len() < 5,
            current_row@ == cells@.subrange(idx - current_row@.len(), idx as int),
            rows_spec(cells@) == grid_view(matrix@) + rows_spec(
                cells@.skip(5 * matrix@.len() as int),
            ),
        decreases cells@.len() - idx,
    {
        current_row.push(cells[idx]);
        idx += 1;
        proof {
            assert(current_row@ =~= cells@.subrange(idx - current_row@.len(), idx as int));
        }
        if current_row.len() == 5 {
            proof {
                let m = matrix@.len() as int;
                let tail = cells@.skip(5 * m);
                assert(idx == 5 * m + 5);
                assert(current_row@ =~= cells@.subrange(5 * m, 5 * m + 5));
                assert(tail.take(5) =~= current_row@);
                assert(tail.skip(5) =~= cells@.skip(5 * m + 5));
                assert(rows_spec(tail) == seq![current_row@] + rows_spec(cells@.skip(5 * m + 5)));
                assert(grid_view(matrix@.push(current_row)) =~= grid_view(matrix@).push(
                    current_row@,
                ));
                assert(grid_view(matrix@).push(current_row@) + rows_spec(cells@.skip(5 * m + 5))
                    =~= grid_view(matrix@) + (seq![current_row@] + rows_spec(
                    cells@.skip(5 * m + 5),
                )));
            }
            matrix.push(current_row);
            current_row = Vec::new();
            proof {
                assert(current_row@ =~= cells@.subrange(idx as int, idx as int));
            }
        }
    }
    let ghost rest = cells@.skip(5 * matrix@.len() as int);
    proof {
        assert(rest =~= current_row@);
        assert(current_row@ =~= rest + filler_run(0));
    }
    if current_row.len() > 0 {
        while current_row.len() < 5
            invariant
                1 <= rest.len() <= current_row@.len() <= 5,
                current_row@ == rest + filler_run(current_row@.len() - rest.len()),
            decreases 5 - current_row@.len(),
        {
            current_row.push(FILLER);
            proof {
                assert(current_row@ =~= rest + filler_run(current_row@.len() - rest.len()));
            }
        }
        proof {
            assert(rows_spec(rest) == seq![rest + filler_run(5 - rest.len())]);
            assert(current_row@ == rest + filler_run(5 - rest.len()));
            assert(grid_view(matrix@.push(current_row)) =~= grid_view(matrix@).push(
                current_row@,
            ));
            assert(grid_view(matrix@) + rows_spec(rest) =~= grid_view(matrix@).push(
                current_row@,
            ));
        }
        matrix.push(current_row);
        proof {
            assert(grid_view(matrix@) == rows_spec(cells@));
        }
    } else {
        proof {
            assert(rest.len() == 0);
            assert(rows_spec(rest) =~= Seq::<Seq<char>>::empty());
            assert(grid_view(matrix@) + rows_spec(rest) =~= grid_view(matrix@));
        }
    }
    Ok(matrix)
}

} // verus!
