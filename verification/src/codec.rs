//! Playfair bigram codec. Messages are canonicalized (uppercase, J merged
//! into I on encoding), padded with the filler to even length on encoding,
//! split into bigrams, and each bigram is substituted by the row / column /
//! rectangle rule over the cipher matrix. Characters absent from the grid
//! pass through unchanged.

use vstd::prelude::*;
use crate::alphabet::{
    AlphabetVariant, alphabet_seq, canon_char, upper_seq, canon_seq, to_upper, to_canon,
    text_in_class, char_in_class, lemma_alphabet_symbols_canonical,
};
use crate::matrix::{
    CipherError, FILLER, find_pos_spec, find_position, grid_view, grid_spec, is_rect, grid_has,
    well_formed, lemma_find_pos_from_some, lemma_find_pos_unique, lemma_grid_spec_well_formed,
};
use crate::strutil::{str_to_chars, chars_to_string};

verus! {

/// A message padded with the filler symbol to even length.
pub open spec fn pad_even(s: Seq<char>) -> Seq<char> {
    if s.len() % 2 == 1 {
        s.push(FILLER)
    } else {
        s
    }
}

/// Encoding of one bigram: cells in the same row shift one column right,
/// cells in the same column shift one row down, otherwise each symbol is
/// replaced by the cell in its own row and the other's column. A bigram
/// with a symbol absent from the grid passes through unchanged.
pub open spec fn encode_bigram(g: Seq<Seq<char>>, a: char, b: char) -> Seq<char> {
    match (find_pos_spec(g, a), find_pos_spec(g, b)) {
        (Some(p1), Some(p2)) => if p1.0 == p2.0 {
            seq![g[p1.0][(p1.1 + 1) % 5], g[p2.0][(p2.1 + 1) % 5]]
        } else if p1.1 == p2.1 {
            seq![g[(p1.0 + 1) % (g.len() as int)][p1.1], g[(p2.0 + 1) % (g.len() as int)][p2.1]]
        } else {
            seq![g[p1.0][p2.1], g[p2.0][p1.1]]
        },
        _ => seq![a, b],
    }
}

/// Decoding of one bigram: the inverse shifts (one column left, one row
/// up), with the same self-inverse rectangle rule and pass-through.
pub open spec fn decode_bigram(g: Seq<Seq<char>>, a: char, b: char) -> Seq<char> {
    match (find_pos_spec(g, a), find_pos_spec(g, b)) {
        (Some(p1), Some(p2)) => if p1.0 == p2.0 {
            seq![g[p1.0][(p1.1 + 4) % 5], g[p2.0][(p2.1 + 4) % 5]]
        } else if p1.1 == p2.1 {
            seq![
                g[(p1.0 + g.len() - 1) % (g.len() as int)][p1.1],
                g[(p2.0 + g.len() - 1) % (g.len() as int)][p2.1],
            ]
        } else {
            seq![g[p1.0][p2.1], g[p2.0][p1.1]]
        },
        _ => seq![a, b],
    }
}

/// Encode consecutive non-overlapping bigrams.
pub open spec fn encode_pairs(g: Seq<Seq<char>>, s: Seq<char>) -> Seq<char>
    decreases s.len(),
{
    if s.len() < 2 {
        Seq::empty()
    } else {
        encode_bigram(g, s[0], s[1]) + encode_pairs(g, s.skip(2))
    }
}

/// Decode consecutive non-overlapping bigrams.
pub open spec fn decode_pairs(g: Seq<Seq<char>>, s: Seq<char>) -> Seq<char>
    decreases s.len(),
{
    if s.len() < 2 {
        Seq::empty()
    } else {
        decode_bigram(g, s[0], s[1]) + decode_pairs(g, s.skip(2))
    }
}

/// The ciphertext of a message: canonicalize, pad to even length, encode
/// bigram by bigram.
pub open spec fn encode_spec(g: Seq<Seq<char>>, s: Seq<char>) -> Seq<char> {
    encode_pairs(g, pad_even(canon_seq(s)))
}

/// The plaintext of an even-length ciphertext: uppercase (no J merge),
/// decode bigram by bigram.
pub open spec fn decode_spec(g: Seq<Seq<char>>, s: Seq<char>) -> Seq<char> {
    decode_pairs(g, upper_seq(s))
}

proof fn lemma_encode_pairs_snoc(g: Seq<Seq<char>>, s: Seq<char>, i: int)
    requires
        0 <= i,
        i % 2 == 0,
        i + 2 <= s.len(),
    ensures
        encode_pairs(g, s.take(i + 2)) == encode_pairs(g, s.take(i)) + encode_bigram(
            g,
            s[i],
            s[i + 1],
        ),
    decreases i,
{
    if i == 0 {
        assert(s.take(2).skip(2) =~= Seq::<char>::empty());
        assert(s.take(0) =~= Seq::<char>::empty());
        assert(s.take(2)[0] == s[0] && s.take(2)[1] == s[1]);
        assert(encode_pairs(g, Seq::<char>::empty()) =~= Seq::<char>::empty());
        assert(encode_pairs(g, s.take(2)) =~= Seq::<char>::empty() + encode_bigram(g, s[0], s[1]));
    } else {
        let s2 = s.skip(2);
        lemma_encode_pairs_snoc(g, s2, i - 2);
        assert(s.take(i + 2).skip(2) =~= s2.take(i));
        assert(s.take(i).skip(2) =~= s2.take(i - 2));
        assert(s.take(i + 2)[0] == s[0] && s.take(i + 2)[1] == s[1]);
        assert(s.take(i)[0] == s[0] && s.take(i)[1] == s[1]);
        assert(s2[i - 2] == s[i] && s2[i - 1] == s[i + 1]);
        assert(encode_pairs(g, s.take(i + 2)) == encode_bigram(g, s[0], s[1]) + encode_pairs(
            g,
            s2.take(i),
        ));
        assert(encode_pairs(g, s.take(i)) == encode_bigram(g, s[0], s[1]) + encode_pairs(
            g,
            s2.take(i - 2),
        ));
        assert(encode_bigram(g, s[0], s[1]) + (encode_pairs(g, s2.take(i - 2)) + encode_bigram(
            g,
            s[i],
            s[i + 1],
        )) =~= (encode_bigram(g, s[0], s[1]) + encode_pairs(g, s2.take(i - 2))) + encode_bigram(
            g,
            s[i],
            s[i + 1],
        ));
    }
}

proof fn lemma_decode_pairs_snoc(g: Seq<Seq<char>>, s: Seq<char>, i: int)
    requires
        0 <= i,
        i % 2 == 0,
        i + 2 <= s.len(),
    ensures
        decode_pairs(g, s.take(i + 2)) == decode_pairs(g, s.take(i)) + decode_bigram(
            g,
            s[i],
            s[i + 1],
        ),
    decreases i,
{
    if i == 0 {
        assert(s.take(2).skip(2) =~= Seq::<char>::empty());
        assert(s.take(0) =~= Seq::<char>::empty());
        assert(s.take(2)[0] == s[0] && s.take(2)[1] == s[1]);
        assert(decode_pairs(g, Seq::<char>::empty()) =~= Seq::<char>::empty());
        assert(decode_pairs(g, s.take(2)) =~= Seq::<char>::empty() + decode_bigram(g, s[0], s[1]));
    } else {
        let s2 = s.skip(2);
        lemma_decode_pairs_snoc(g, s2, i - 2);
        assert(s.take(i + 2).skip(2) =~= s2.take(i));
        assert(s.take(i).skip(2) =~= s2.take(i - 2));
        assert(s.take(i + 2)[0] == s[0] && s.take(i + 2)[1] == s[1]);
        assert(s.take(i)[0] == s[0] && s.take(i)[1] == s[1]);
        assert(s2[i - 2] == s[i] && s2[i - 1] == s[i + 1]);
        assert(decode_pairs(g, s.take(i + 2)) == decode_bigram(g, s[0], s[1]) + decode_pairs(
            g,
            s2.take(i),
        ));
        assert(decode_pairs(g, s.take(i)) == decode_bigram(g, s[0], s[1]) + decode_pairs(
            g,
            s2.take(i - 2),
        ));
        assert(decode_bigram(g, s[0], s[1]) + (decode_pairs(g, s2.take(i - 2)) + decode_bigram(
            g,
            s[i],
            s[i + 1],
        )) =~= (decode_bigram(g, s[0], s[1]) + decode_pairs(g, s2.take(i - 2))) + decode_bigram(
            g,
            s[i],
            s[i + 1],
        ));
    }
}

/// Substitute one bigram through the matrix, as `encode_bigram` says.
fn encode_bigram_exec(matrix: &Vec<Vec<char>>, a: char, b: char) -> (r: (char, char))
    requires
        is_rect(grid_view(matrix@)),
    ensures
        seq![r.0, r.1] == encode_bigram(grid_view(matrix@), a, b),
{
    let ghost g = grid_view(matrix@);
    let p1 = find_position(matrix, a);
    let p2 = find_position(matrix, b);
    proof {
        lemma_find_pos_from_some(g, a, 0);
        lemma_find_pos_from_some(g, b, 0);
    }
    match (p1, p2) {
        (Some(q1), Some(q2)) => {
            let (r1, c1) = q1;
            let (r2, c2) = q2;
            let rows = matrix.len();
            proof {
                assert(rows as int == g.len() && rows >= 1);
                assert((r1 as int) < g.len() && (c1 as int) < g[r1 as int].len());
                assert((r2 as int) < g.len() && (c2 as int) < g[r2 as int].len());
                assert(((r1 as int) + 1) % (rows as int) < rows as int && ((r2 as int) + 1) % (
                rows as int) < rows as int) by (nonlinear_arith)
                    requires
                        rows >= 1,
                        r1 < rows,
                        r2 < rows,
                ;
            }
            let out = if r1 == r2 {
                (matrix[r1][(c1 + 1) % 5], matrix[r2][(c2 + 1) % 5])
            } else if c1 == c2 {
                let i1 = (r1 + 1) % rows;
                let i2 = (r2 + 1) % rows;
                proof {
                    assert(i1 < rows && i2 < rows);
                    assert(g[i1 as int].len() == 5 && g[i2 as int].len() == 5);
                }
                (matrix[i1][c1], matrix[i2][c2])
            } else {
                (matrix[r1][c2], matrix[r2][c1])
            };
            proof {
                assert(seq![out.0, out.1] =~= encode_bigram(g, a, b));
            }
            out
        },
        _ => {
            proof {
                assert(seq![a, b] =~= encode_bigram(g, a, b));
            }
            (a, b)
        },
    }
}

/// Substitute one bigram back through the matrix, as `decode_bigram` says.
fn decode_bigram_exec(matrix: &Vec<Vec<char>>, a: char, b: char) -> (r: (char, char))
    requires
        is_rect(grid_view(matrix@)),
    ensures
        seq![r.0, r.1] == decode_bigram(grid_view(matrix@), a, b),
{
    let ghost g = grid_view(matrix@);
    let p1 = find_position(matrix, a);
    let p2 = find_position(matrix, b);
    proof {
        lemma_find_pos_from_some(g, a, 0);
        lemma_find_pos_from_some(g, b, 0);
    }
    match (p1, p2) {
        (Some(q1), Some(q2)) => {
            let (r1, c1) = q1;
            let (r2, c2) = q2;
            let rows = matrix.len();
            let nr1 = if r1 == 0 { rows - 1 } else { r1 - 1 };
            let nr2 = if r2 == 0 { rows - 1 } else { r2 - 1 };
            proof {
                assert(rows as int == g.len() && rows >= 1);
                assert((r1 as int) < g.len() && (c1 as int) < g[r1 as int].len());
                assert((r2 as int) < g.len() && (c2 as int) < g[r2 as int].len());
                assert(nr1 as int == (r1 + g.len() - 1) % (g.len() as int)) by (nonlinear_arith)
                    requires
                        g.len() >= 1,
                        0 <= r1 < g.len(),
                        nr1 == if r1 == 0 { g.len() - 1 } else { r1 - 1 },
                ;
                assert(nr2 as int == (r2 + g.len() - 1) % (g.len() as int)) by (nonlinear_arith)
                    requires
                        g.len() >= 1,
                        0 <= r2 < g.len(),
                        nr2 == if r2 == 0 { g.len() - 1 } else { r2 - 1 },
                ;
            }
            let out = if r1 == r2 {
                (matrix[r1][(c1 + 4) % 5], matrix[r2][(c2 + 4) % 5])
            } else if c1 == c2 {
                proof {
                    assert(nr1 < rows && nr2 < rows);
                    assert(g[nr1 as int].len() == 5 && g[nr2 as int].len() == 5);
                }
                (matrix[nr1][c1], matrix[nr2][c2])
            } else {
                (matrix[r1][c2], matrix[r2][c1])
            };
            proof {
                assert(seq![out.0, out.1] =~= decode_bigram(g, a, b));
            }
            out
        },
        _ => {
            proof {
                assert(seq![a, b] =~= decode_bigram(g, a, b));
            }
            (a, b)
        },
    }
}

/// Encrypt a message: uppercase it, merge J into I, pad with the filler
/// to even length, and substitute each bigram through the matrix.
pub fn encrypt_playfair(matrix: &Vec<Vec<char>>, text: &str) -> (r: String)
    requires
        is_rect(grid_view(matrix@)),
    ensures
        r@ == encode_spec(grid_view(matrix@), text@),
{
    let ghost g = grid_view(matrix@);
    let chars = str_to_chars(text);
    let mut t: Vec<char> = Vec::new();
    let mut i: usize = 0;
    while i < chars.len()
        invariant
            i <= chars@.len(),
            chars@ == text@,
            t@ == canon_seq(text@.take(i as int)),
        decreases chars@.len() - i,
    {
        t.push(to_canon(chars[i]));
        proof {
            assert(t@ =~= canon_seq(text@.take(i + 1)));
        }
        i += 1;
    }
    proof {
        assert(canon_seq(text@.take(text@.len() as int)) =~= canon_seq(text@));
    }
    if t.len() % 2 == 1 {
        t.push(FILLER);
    }
    proof {
        assert(t@ == pad_even(canon_seq(text@)));
    }

    let mut out: Vec<char> = Vec::new();
    let mut j: usize = 0;
    proof {
        assert(t@.take(0) =~= Seq::<char>::empty());
    }
    while j < t.len()
        invariant
            j <= t@.len(),
            j % 2 == 0,
            t@.len() % 2 == 0,
            is_rect(g),
            g == grid_view(matrix@),
            out@ == encode_pairs(g, t@.take(j as int)),
        decreases t@.len() - j,
    {
        let a = t[j];
        let b = t[j + 1];
        let e = encode_bigram_exec(matrix, a, b);
        out.push(e.0);
        out.push(e.1);
        proof {
            lemma_encode_pairs_snoc(g, t@, j as int);
            assert(out@ =~= encode_pairs(g, t@.take(j as int)) + encode_bigram(g, a, b));
        }
        j += 2;
    }
    proof {
        assert(t@.take(t@.len() as int) =~= t@);
    }
    chars_to_string(&out)
}

/// Decrypt a ciphertext: uppercase it and substitute each bigram back
/// through the matrix. An odd-length ciphertext is malformed and is
/// rejected with `InvalidMessage`.
pub fn decrypt_playfair(matrix: &Vec<Vec<char>>, text: &str) -> (r: Result<String, CipherError>)
    requires
        is_rect(grid_view(matrix@)),
    ensures
        text@.len() % 2 == 0 <==> r is Ok,
        r matches Ok(s) ==> s@ == decode_spec(grid_view(matrix@), text@),
        r matches Err(e) ==> e == CipherError::InvalidMessage,
{
    let ghost g = grid_view(matrix@);
    let chars = str_to_chars(text);
    if chars.len() % 2 == 1 {
        return Err(CipherError::InvalidMessage);
    }
    let mut t: Vec<char> = Vec::new();
    let mut i: usize = 0;
    while i < chars.len()
        invariant
            i <= chars@.len(),
            chars@ == text@,
            t@ == upper_seq(text@.take(i as int)),
        decreases chars@.len() - i,
    {
        t.push(to_upper(chars[i]));
        proof {
            assert(t@ =~= upper_seq(text@.take(i + 1)));
        }
        i += 1;
    }
    proof {
        assert(upper_seq(text@.take(text@.len() as int)) =~= upper_seq(text@));
    }

    let mut out: Vec<char> = Vec::new();
    let mut j: usize = 0;
    proof {
        assert(t@.take(0) =~= Seq::<char>::empty());
    }
    while j < t.len()
        invariant
            j <= t@.len(),
            j % 2 == 0,
            t@.len() % 2 == 0,
            is_rect(g),
            g == grid_view(matrix@),
            out@ == decode_pairs(g, t@.take(j as int)),
        decreases t@.len() - j,
    {
        let a = t[j];
        let b = t[j + 1];
        let e = decode_bigram_exec(matrix, a, b);
        out.push(e.0);
        out.push(e.1);
        proof {
            lemma_decode_pairs_snoc(g, t@, j as int);
            assert(out@ =~= decode_pairs(g, t@.take(j as int)) + decode_bigram(g, a, b));
        }
        j += 2;
    }
    proof {
        assert(t@.take(t@.len() as int) =~= t@);
    }
    Ok(chars_to_string(&out))
}

/// Encoding preserves length on even-length input.
pub proof fn lemma_encode_pairs_length(g: Seq<Seq<char>>, s: Seq<char>)
    requires
        s.len() % 2 == 0,
    ensures
        encode_pairs(g, s).len() == s.len(),
    decreases s.len(),
{
    if s.len() >= 2 {
        lemma_encode_pairs_length(g, s.skip(2));
    }
}

/// A ciphertext has as many characters as the padded message: a message
/// of odd length is encoded as one character more.
pub proof fn lemma_encode_length(g: Seq<Seq<char>>, s: Seq<char>)
    ensures
        encode_spec(g, s).len() == pad_even(canon_seq(s)).len(),
        pad_even(canon_seq(s)).len() % 2 == 0,
{
    lemma_encode_pairs_length(g, pad_even(canon_seq(s)));
}

/// One bigram of alphabet symbols encodes to two grid symbols and decodes
/// back to exactly itself.
proof fn lemma_bigram_round_trip(g: Seq<Seq<char>>, v: AlphabetVariant, a: char, b: char)
    requires
        well_formed(g, v),
        alphabet_seq(v).contains(a),
        alphabet_seq(v).contains(b),
    ensures
        encode_bigram(g, a, b).len() == 2,
        alphabet_seq(v).contains(encode_bigram(g, a, b)[0]),
        alphabet_seq(v).contains(encode_bigram(g, a, b)[1]),
        decode_bigram(g, encode_bigram(g, a, b)[0], encode_bigram(g, a, b)[1]) == seq![a, b],
{
    let rows = g.len() as int;
    assert(grid_has(g, a));
    assert(grid_has(g, b));
    let (r1, c1) = choose|r: int, cl: int|
        0 <= r < g.len() && 0 <= cl < g[r].len() && #[trigger] g[r][cl] == a;
    let (r2, c2) = choose|r: int, cl: int|
        0 <= r < g.len() && 0 <= cl < g[r].len() && #[trigger] g[r][cl] == b;
    lemma_find_pos_unique(g, a, r1, c1);
    lemma_find_pos_unique(g, b, r2, c2);
    let e = encode_bigram(g, a, b);
    if r1 == r2 {
        let n1 = (c1 + 1) % 5;
        let n2 = (c2 + 1) % 5;
        assert(0 <= n1 < 5 && 0 <= n2 < 5);
        assert(e == seq![g[r1][n1], g[r2][n2]]);
        lemma_find_pos_unique(g, g[r1][n1], r1, n1);
        lemma_find_pos_unique(g, g[r2][n2], r2, n2);
        assert((n1 + 4) % 5 == c1 && (n2 + 4) % 5 == c2) by (nonlinear_arith)
            requires
                0 <= c1 < 5,
                0 <= c2 < 5,
                n1 == (c1 + 1) % 5,
                n2 == (c2 + 1) % 5,
        ;
        assert(decode_bigram(g, e[0], e[1]) =~= seq![a, b]);
    } else if c1 == c2 {
        let n1 = (r1 + 1) % rows;
        let n2 = (r2 + 1) % rows;
        assert(0 <= n1 < rows && 0 <= n2 < rows) by (nonlinear_arith)
            requires
                rows >= 1,
                0 <= r1 < rows,
                0 <= r2 < rows,
                n1 == (r1 + 1) % rows,
                n2 == (r2 + 1) % rows,
        ;
        assert(e == seq![g[n1][c1], g[n2][c2]]);
        lemma_find_pos_unique(g, g[n1][c1], n1, c1);
        lemma_find_pos_unique(g, g[n2][c2], n2, c2);
        assert(n1 != n2 && (n1 + rows - 1) % rows == r1 && (n2 + rows - 1) % rows == r2)
            by (nonlinear_arith)
            requires
                rows >= 1,
                0 <= r1 < rows,
                0 <= r2 < rows,
                r1 != r2,
                n1 == (r1 + 1) % rows,
                n2 == (r2 + 1) % rows,
        ;
        assert(decode_bigram(g, e[0], e[1]) =~= seq![a, b]);
    } else {
        assert(e == seq![g[r1][c2], g[r2][c1]]);
        lemma_find_pos_unique(g, g[r1][c2], r1, c2);
        lemma_find_pos_unique(g, g[r2][c1], r2, c1);
        assert(decode_bigram(g, e[0], e[1]) =~= seq![a, b]);
    }
    assert(grid_has(g, e[0]) && grid_has(g, e[1]));
}

proof fn lemma_pairs_round_trip(g: Seq<Seq<char>>, v: AlphabetVariant, t: Seq<char>)
    requires
        well_formed(g, v),
        t.len() % 2 == 0,
        forall|i: int| 0 <= i < t.len() ==> alphabet_seq(v).contains(#[trigger] t[i]),
    ensures
        decode_pairs(g, upper_seq(encode_pairs(g, t))) == t,
    decreases t.len(),
{
    if t.len() == 0 {
        assert(upper_seq(encode_pairs(g, t)) =~= Seq::<char>::empty());
        assert(decode_pairs(g, upper_seq(encode_pairs(g, t))) =~= t);
    } else {
        let e = encode_bigram(g, t[0], t[1]);
        lemma_bigram_round_trip(g, v, t[0], t[1]);
        let rest = t.skip(2);
        assert(forall|i: int| 0 <= i < rest.len() ==> alphabet_seq(v).contains(#[trigger] rest[i]))
            by {
            assert forall|i: int| 0 <= i < rest.len() implies alphabet_seq(v).contains(
                #[trigger] rest[i],
            ) by {
                assert(rest[i] == t[i + 2]);
            }
        }
        lemma_pairs_round_trip(g, v, rest);
        let erest = encode_pairs(g, rest);
        assert(encode_pairs(g, t) == e + erest);
        lemma_alphabet_symbols_canonical(v, e[0]);
        lemma_alphabet_symbols_canonical(v, e[1]);
        let u = upper_seq(e + erest);
        assert(u =~= seq![e[0], e[1]] + upper_seq(erest));
        let u2 = seq![e[0], e[1]] + upper_seq(erest);
        assert(u2.len() >= 2);
        assert(u2[0] == e[0] && u2[1] == e[1]);
        assert(u2.skip(2) =~= upper_seq(erest));
        assert(decode_pairs(g, u2) == decode_bigram(g, e[0], e[1]) + decode_pairs(
            g,
            upper_seq(erest),
        ));
        assert(decode_bigram(g, e[0], e[1]) + rest =~= t);
    }
}

/// Round trip: over a well-formed grid, decoding an encoded message
/// returns the message canonicalized (uppercased, J merged into I) and
/// padded with the filler to even length.
pub proof fn lemma_encode_decode_round_trip(g: Seq<Seq<char>>, v: AlphabetVariant, text: Seq<char>)
    requires
        well_formed(g, v),
        text_in_class(v, text),
    ensures
        decode_spec(g, encode_spec(g, text)) == pad_even(canon_seq(text)),
{
    let t = pad_even(canon_seq(text));
    assert(alphabet_seq(v).contains(FILLER)) by {
        assert(alphabet_seq(v)[22] == FILLER);
    }
    assert forall|i: int| 0 <= i < t.len() implies alphabet_seq(v).contains(#[trigger] t[i]) by {
        if i < canon_seq(text).len() {
            assert(t[i] == canon_char(text[i]));
            assert(char_in_class(v, text[i]));
        } else {
            assert(t[i] == FILLER);
        }
    }
    lemma_pairs_round_trip(g, v, t);
}

/// Round trip through a keyword-built grid: decoding an encoded message
/// over the matrix of any valid keyword returns the canonicalized, padded
/// message.
pub proof fn lemma_round_trip_for_keyword(v: AlphabetVariant, k: Seq<char>, text: Seq<char>)
    requires
        text_in_class(v, k),
        text_in_class(v, text),
    ensures
        decode_spec(grid_spec(v, k), encode_spec(grid_spec(v, k), text)) == pad_even(
            canon_seq(text),
        ),
{
    lemma_grid_spec_well_formed(v, k);
    lemma_encode_decode_round_trip(grid_spec(v, k), v, text);
}

} // verus!
