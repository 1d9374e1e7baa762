//! The flat text format for weight persistence: one line per layer, each
//! line the comma-terminated, comma-separated flattening of that layer's
//! weight matrix in row-major order. No shapes, biases, activations or
//! architecture metadata are written; loading fills the weights of an
//! already-constructed network using its current shapes.

use vstd::prelude::*;
use vstd::pervasive::VecAdditionalExecFns;
use crate::fixed::FX_MAX;
use crate::linalg::Matrix;
use crate::nn::{Layer, Network};

verus! {

/// Why loading a weight file failed, with the offending line.
#[derive(Clone, Copy, PartialEq, Eq, Structural, Debug)]
pub enum LoadError {
    UnterminatedLine(usize),
    InvalidNumber(usize),
    NotEnoughValues(usize),
    NotEnoughLines,
}

/// The decimal digits of `n`, most significant first.
pub open spec fn dec_digits(n: nat) -> Seq<u8>
    decreases n,
{
    if n < 10 {
        seq![(48 + n) as u8]
    } else {
        dec_digits(n / 10).push((48 + n % 10) as u8)
    }
}

/// The decimal rendering of a signed raw value.
pub open spec fn render_int(v: int) -> Seq<u8> {
    if v < 0 {
        seq![45u8] + dec_digits((-v) as nat)
    } else {
        dec_digits(v as nat)
    }
}

/// The numeric value of a digit string, most significant digit first.
pub open spec fn digits_value(s: Seq<u8>) -> nat
    decreases s.len(),
{
    if s.len() == 0 {
        0
    } else {
        digits_value(s.drop_last()) * 10 + (if s.last() >= 48 {
            (s.last() - 48) as nat
        } else {
            0
        })
    }
}

/// Reading back the decimal rendering of a value gives the value: the
/// per-token half of the save/load round trip.
pub proof fn lemma_digits_round_trip(n: nat)
    ensures
        digits_value(dec_digits(n)) == n,
    decreases n,
{
    if n < 10 {
        assert(dec_digits(n).drop_last() =~= Seq::<u8>::empty());
        assert(dec_digits(n).last() == (48 + n) as u8);
        assert(digits_value(Seq::<u8>::empty()) == 0);
        assert(digits_value(dec_digits(n)) == n);
    } else {
        lemma_digits_round_trip(n / 10);
        vstd::arithmetic::div_mod::lemma_mod_bound(n as int, 10);
        assert(dec_digits(n).drop_last() =~= dec_digits(n / 10));
        assert(dec_digits(n).last() == (48 + n % 10) as u8);
        vstd::arithmetic::div_mod::lemma_fundamental_div_mod(n as int, 10);
    }
}

/// An ASCII decimal digit.
pub open spec fn is_digit(b: u8) -> bool {
    48 <= b <= 57
}

/// Every byte of the string is a decimal digit.
pub open spec fn all_digits(s: Seq<u8>) -> bool {
    forall|i: int| 0 <= i < s.len() ==> is_digit(#[trigger] s[i])
}

/// A well-formed token: an optional leading minus sign, then at least
/// one digit, with a magnitude no larger than `FX_MAX`.
pub open spec fn token_ok(t: Seq<u8>) -> bool {
    if t.len() == 0 {
        false
    } else if t[0] == 45 {
        t.len() >= 2 && all_digits(t.subrange(1, t.len() as int)) && digits_value(
            t.subrange(1, t.len() as int),
        ) <= FX_MAX
    } else {
        all_digits(t) && digits_value(t) <= FX_MAX
    }
}

/// The signed value of a well-formed token.
pub open spec fn token_value(t: Seq<u8>) -> int {
    if t.len() > 0 && t[0] == 45 {
        -(digits_value(t.subrange(1, t.len() as int)) as int)
    } else {
        digits_value(t) as int
    }
}

proof fn lemma_digits_prefix_le(s: Seq<u8>, k: int)
    requires
        0 <= k <= s.len(),
    ensures
        digits_value(s.take(k)) <= digits_value(s),
    decreases s.len() - k,
{
    if k == s.len() {
        assert(s.take(k) =~= s);
    } else {
        assert(s.take(k + 1).drop_last() =~= s.take(k));
        assert(digits_value(s.take(k)) * 10 >= digits_value(s.take(k)))
            by (nonlinear_arith);
        lemma_digits_prefix_le(s, k + 1);
    }
}

proof fn lemma_dec_digits_are_digits(n: nat)
    ensures
        all_digits(dec_digits(n)),
        dec_digits(n).len() >= 1,
    decreases n,
{
    if n >= 10 {
        lemma_dec_digits_are_digits(n / 10);
        vstd::arithmetic::div_mod::lemma_mod_bound(n as int, 10);
        assert forall|i: int| 0 <= i < dec_digits(n).len() implies is_digit(
            #[trigger] dec_digits(n)[i],
        ) by {
            if i < dec_digits(n).len() - 1 {
                assert(dec_digits(n)[i] == dec_digits(n / 10)[i]);
            }
        }
    }
}

/// Parsing the decimal rendering of a representable raw value gives the
/// value back: the token-level statement of the save/load round trip.
pub proof fn lemma_token_round_trip(v: int)
    requires
        -(FX_MAX as int) <= v <= FX_MAX as int,
    ensures
        token_ok(render_int(v)),
        token_value(render_int(v)) == v,
{
    if v < 0 {
        let mag = (-v) as nat;
        lemma_dec_digits_are_digits(mag);
        lemma_digits_round_trip(mag);
        let t = render_int(v);
        assert(t[0] == 45);
        assert(t.subrange(1, t.len() as int) =~= dec_digits(mag));
    } else {
        lemma_dec_digits_are_digits(v as nat);
        lemma_digits_round_trip(v as nat);
        assert(is_digit(render_int(v)[0]));
    }
}

/// The views of a vector of byte vectors.
pub open spec fn seq_views(s: Seq<Vec<u8>>) -> Seq<Seq<u8>> {
    s.map_values(|v: Vec<u8>| v@)
}

/// Splits a byte string on a separator: one segment more than there are
/// separators, in order; an empty input gives one empty segment.
pub open spec fn split_at(s: Seq<u8>, sep: u8) -> Seq<Seq<u8>>
    decreases s.len(),
{
    if s.len() == 0 {
        seq![Seq::<u8>::empty()]
    } else if s.last() == sep {
        split_at(s.drop_last(), sep).push(Seq::empty())
    } else {
        let r = split_at(s.drop_last(), sep);
        r.update(r.len() - 1, r.last().push(s.last()))
    }
}

/// The lines of a weight file: the text split on newlines, with the
/// final empty segment dropped when the text ends in a newline, as a
/// line-by-line reader would read it.
#[verifier::opaque]
pub open spec fn lines_of(text: Seq<u8>) -> Seq<Seq<u8>> {
    let r = split_at(text, 10);
    if r.len() >= 1 && r.last().len() == 0 {
        r.drop_last()
    } else {
        r
    }
}

/// The tokens of a comma-terminated line: the trailing comma stripped,
/// the rest split on commas.
#[verifier::opaque]
pub open spec fn line_tokens(line: Seq<u8>) -> Seq<Seq<u8>> {
    split_at(line.drop_last(), 44)
}

/// One line serves a matrix of the given shape: it ends in a comma and
/// its first `rows * cols` tokens are well formed; surplus tokens are
/// ignored.
#[verifier::opaque]
pub open spec fn line_ok(line: Seq<u8>, rows: nat, cols: nat) -> bool {
    &&& line.len() >= 1
    &&& line.last() == 44
    &&& line_tokens(line).len() >= rows * cols
    &&& forall|k: int| 0 <= k < rows * cols ==> token_ok(#[trigger] line_tokens(line)[k])
}

/// The text serves the stack: at least one line per layer, each serving
/// that layer's weight shape; surplus lines are ignored.
#[verifier::opaque]
pub open spec fn wf_weight_text(text: Seq<u8>, ls: Seq<Layer>) -> bool {
    &&& lines_of(text).len() >= ls.len()
    &&& forall|p: int|
        0 <= p < ls.len() ==> line_ok(
            #[trigger] lines_of(text)[p],
            ls[p].weights.nrows as nat,
            ls[p].weights.ncols as nat,
        )
}

/// Matrices `ms` hold, for every layer `p` of stack `ls` and every
/// entry `(i, j)` of its weight shape, the loaded value of the text.
#[verifier::opaque]
pub open spec fn mats_loaded_ok(text: Seq<u8>, ls: Seq<Layer>, ms: Seq<Matrix>) -> bool {
    forall|p: int, i: int, j: int|
        #![trigger ms[p]@[i][j]]
        0 <= p < ls.len() && 0 <= i < ls[p].weights.nrows && 0 <= j < ls[p].weights.ncols
            ==> ms[p]@[i][j] == loaded_entry(text, ls, p, i, j)
}

/// Stack `cur` holds, for every layer `p` of stack `ls` and every entry
/// `(i, j)` of its weight shape, the loaded value of the text.
#[verifier::opaque]
pub open spec fn loaded_ok(text: Seq<u8>, ls: Seq<Layer>, cur: Seq<Layer>) -> bool {
    forall|p: int, i: int, j: int|
        #![trigger cur[p].weights@[i][j]]
        0 <= p < ls.len() && 0 <= i < ls[p].weights.nrows && 0 <= j < ls[p].weights.ncols
            ==> cur[p].weights@[i][j] == loaded_entry(text, ls, p, i, j)
}

/// The raw value that loading the text puts into entry `(i, j)` of layer
/// `p`'s weights: the value of token `i * cols + j` of line `p`.
#[verifier::opaque]
pub open spec fn loaded_entry(text: Seq<u8>, ls: Seq<Layer>, p: int, i: int, j: int) -> int {
    token_value(line_tokens(lines_of(text)[p])[i * ls[p].weights.ncols + j])
}

/// The first `k` entries of a row, each rendered and comma-terminated.
pub open spec fn render_row(r: Seq<int>, k: nat) -> Seq<u8>
    decreases k,
{
    if k == 0 {
        Seq::empty()
    } else {
        render_row(r, (k - 1) as nat) + render_int(r[k - 1]) + seq![44u8]
    }
}

/// The first `k` rows of a matrix, flattened in row-major order.
pub open spec fn render_mat(m: Seq<Seq<int>>, k: nat) -> Seq<u8>
    decreases k,
{
    if k == 0 {
        Seq::empty()
    } else {
        render_mat(m, (k - 1) as nat) + render_row(m[k - 1], m[k - 1].len())
    }
}

/// The first `k` layers' weight matrices, one newline-terminated line each.
pub open spec fn render_net(ls: Seq<Layer>, k: nat) -> Seq<u8>
    decreases k,
{
    if k == 0 {
        Seq::empty()
    } else {
        render_net(ls, (k - 1) as nat) + render_mat(ls[k - 1].weights@, ls[k - 1].weights@.len())
            + seq![10u8]
    }
}

/// Appends the decimal digits of `n`.
fn push_dec(n: u64, out: &mut Vec<u8>)
    ensures
        final(out)@ == old(out)@ + dec_digits(n as nat),
    decreases n,
{
    if n < 10 {
        out.push((48 + n) as u8);
        proof {
            assert(final(out)@ =~= old(out)@ + dec_digits(n as nat));
        }
    } else {
        push_dec(n / 10, out);
        out.push((48 + (n % 10)) as u8);
        proof {
            assert(final(out)@ =~= old(out)@ + dec_digits(n as nat));
        }
    }
}

/// Appends the decimal rendering of a signed raw value.
fn push_int(v: i64, out: &mut Vec<u8>)
    ensures
        final(out)@ == old(out)@ + render_int(v as int),
{
    if v < 0 {
        out.push(45);
        let mag: u64 = (-(v as i128)) as u64;
        push_dec(mag, out);
        proof {
            assert(final(out)@ =~= old(out)@ + render_int(v as int));
        }
    } else {
        push_dec(v as u64, out);
    }
}

impl Network {
    /// Serializes the weights: for each layer one line holding the
    /// weight matrix flattened row-major, every value followed by a
    /// comma, the line closed by a newline.
    pub fn save_weights(&self) -> (r: Vec<u8>)
        requires
            self.wf(),
        ensures
            r@ == render_net(self.layers@, self.layers@.len()),
    {
        let mut out: Vec<u8> = Vec::new();
        let ghost ls: Seq<Layer> = self.layers@;
        let mut l: usize = 0;
        proof {
            assert(out@ =~= render_net(ls, 0));
        }
        while l < self.layers.len()
            invariant
                self.wf(),
                ls == self.layers@,
                0 <= l <= self.layers.len(),
                out@ == render_net(ls, l as nat),
            decreases self.layers.len() - l,
        {
            let m: &Matrix = &self.layers[l].weights;
            let ghost mv: Seq<Seq<int>> = m@;
            let mut i: usize = 0;
            proof {
                assert(out@ + render_mat(mv, 0) =~= out@);
            }
            let ghost base: Seq<u8> = out@;
            while i < m.nrows
                invariant
                    m.wf(),
                    mv == m@,
                    0 <= i <= m.nrows,
                    out@ == base + render_mat(mv, i as nat),
                decreases m.nrows - i,
            {
                let ghost rowbase: Seq<u8> = out@;
                let mut j: usize = 0;
                proof {
                    assert(out@ + render_row(mv[i as int], 0) =~= out@);
                }
                while j < m.ncols
                    invariant
                        m.wf(),
                        mv == m@,
                        0 <= i < m.nrows,
                        0 <= j <= m.ncols,
                        out@ == rowbase + render_row(mv[i as int], j as nat),
                    decreases m.ncols - j,
                {
                    push_int(m.data[i][j], &mut out);
                    out.push(44);
                    proof {
                        assert(mv[i as int][j as int] == m.data@[i as int]@[j as int] as int);
                        assert(out@ =~= rowbase + render_row(mv[i as int], (j + 1) as nat));
                    }
                    j = j + 1;
                }
                proof {
                    assert(mv[i as int].len() == m.ncols);
                    assert(out@ =~= base + render_mat(mv, (i + 1) as nat));
                }
                i = i + 1;
            }
            out.push(10);
            proof {
                assert(out@ =~= render_net(ls, (l + 1) as nat));
            }
            l = l + 1;
        }
        out
    }

    /// Reads one line per layer in file order: strips the trailing
    /// comma, splits on commas, parses each token as a signed raw value,
    /// and fills each pre-existing layer's weight matrix row-major using
    /// its current shape. Extra tokens and extra lines are ignored.
    /// Nothing changes unless every layer parses; only weights change.
    #[verifier::rlimit(100)]
    #[verifier::spinoff_prover]
    pub fn load_weights(&mut self, text: &Vec<u8>) -> (r: Result<(), LoadError>)
        requires
            old(self).wf(),
        ensures
            final(self).wf(),
            final(self).loss == old(self).loss,
            final(self).layers.len() == old(self).layers.len(),
            forall|p: int|
                0 <= p < old(self).layers.len() ==> #[trigger] reweighted_ok(
                    old(self).layers@[p],
                    final(self).layers@[p],
                ),
            r is Ok <==> wf_weight_text(text@, old(self).layers@),
            r is Ok ==> loaded_ok(text@, old(self).layers@, final(self).layers@),
            r is Err ==> *final(self) == *old(self),
    {
        let mats: Vec<Matrix> = match read_weight_text(text, &self.layers) {
            Ok(ms) => ms,
            Err(e) => {
                return Err(e);
            },
        };
        apply_weights(&mut self.layers, mats, Ghost(text@));
        Ok(())
    }
}

proof fn lemma_wf_text_iff(text: Seq<u8>, lines: Seq<Vec<u8>>, ls: Seq<Layer>)
    requires
        seq_views(lines) == lines_of(text),
        lines.len() >= ls.len(),
    ensures
        wf_weight_text(text, ls) <==> forall|p: int|
            0 <= p < ls.len() ==> line_ok(
                (#[trigger] lines[p])@,
                ls[p].weights.nrows as nat,
                ls[p].weights.ncols as nat,
            ),
{
    reveal(wf_weight_text);
    assert(lines_of(text).len() == lines.len());
    assert forall|p: int| 0 <= p < ls.len() implies (#[trigger] lines[p])@ == lines_of(text)[p] by {
        assert(seq_views(lines)[p] == (lines[p])@);
    }
}

proof fn lemma_mats_loaded(text: Seq<u8>, lines: Seq<Vec<u8>>, ls: Seq<Layer>, ms: Seq<Matrix>)
    requires
        seq_views(lines) == lines_of(text),
        lines.len() >= ls.len(),
        ms.len() == ls.len(),
        forall|p: int, i: int, j: int|
            #![trigger ms[p]@[i][j]]
            0 <= p < ls.len() && 0 <= i < ls[p].weights.nrows && 0 <= j < ls[p].weights.ncols
                ==> ms[p]@[i][j] == token_value(
                line_tokens((lines[p])@)[i * ls[p].weights.ncols + j],
            ),
    ensures
        mats_loaded_ok(text, ls, ms),
{
    reveal(mats_loaded_ok);
    reveal(loaded_entry);
    assert forall|p: int, i: int, j: int|
        #![trigger ms[p]@[i][j]]
        0 <= p < ls.len() && 0 <= i < ls[p].weights.nrows && 0 <= j < ls[p].weights.ncols
            implies ms[p]@[i][j] == loaded_entry(text, ls, p, i, j) by {
        assert(ms[p]@[i][j] == token_value(line_tokens((lines[p])@)[i * ls[p].weights.ncols + j]));
        assert(seq_views(lines)[p] == (lines[p])@);
        assert(lines_of(text)[p] == (lines[p])@);
    }
}

proof fn lemma_weights_from_mats(text: Seq<u8>, ls: Seq<Layer>, ms: Seq<Matrix>, cur: Seq<Layer>)
    requires
        cur.len() == ls.len(),
        ms.len() == ls.len(),
        forall|p: int| 0 <= p < ls.len() ==> (#[trigger] cur[p]).weights == ms[p],
        mats_loaded_ok(text, ls, ms),
    ensures
        loaded_ok(text, ls, cur),
{
    reveal(loaded_ok);
    reveal(mats_loaded_ok);
    assert forall|p: int, i: int, j: int|
        #![trigger cur[p].weights@[i][j]]
        0 <= p < ls.len() && 0 <= i < ls[p].weights.nrows && 0 <= j < ls[p].weights.ncols
            implies cur[p].weights@[i][j] == loaded_entry(text, ls, p, i, j) by {
        assert(cur[p].weights == ms[p]);
        assert(ms[p]@[i][j] == loaded_entry(text, ls, p, i, j));
    }
}

/// Splits a weight file into lines and parses one matrix per layer:
/// succeeds exactly when the text serves the stack's shapes.
#[verifier::rlimit(100)]
#[verifier::spinoff_prover]
fn read_weight_text(text: &Vec<u8>, layers: &Vec<Layer>) -> (r: Result<Vec<Matrix>, LoadError>)
    requires
        forall|p: int| 0 <= p < layers.len() ==> (#[trigger] layers@[p]).wf(),
    ensures
        r is Ok <==> wf_weight_text(text@, layers@),
        r matches Ok(ms) ==> ms.len() == layers.len() && forall|p: int|
            0 <= p < layers.len() ==> (#[trigger] ms@[p]).wf() && ms@[p].nrows
                == layers@[p].weights.nrows && ms@[p].ncols == layers@[p].weights.ncols,
        r matches Ok(ms) ==> mats_loaded_ok(text@, layers@, ms@),
{
    let lines: Vec<Vec<u8>> = split_lines(text);
    if lines.len() < layers.len() {
        proof {
            reveal(wf_weight_text);
            assert(lines_of(text@).len() == lines@.len());
            assert(!wf_weight_text(text@, layers@));
        }
        return Err(LoadError::NotEnoughLines);
    }
    proof {
        lemma_wf_text_iff(text@, lines@, layers@);
    }
    match parse_layer_lines(&lines, layers) {
        Ok(ms) => {
            proof {
                lemma_mats_loaded(text@, lines@, layers@, ms@);
            }
            Ok(ms)
        },
        Err(e) => Err(e),
    }
}

/// Replaces every layer's weights with the parsed matrices and carries
/// the loaded values and shapes through.
#[verifier::rlimit(100)]
#[verifier::spinoff_prover]
fn apply_weights(layers: &mut Vec<Layer>, mats: Vec<Matrix>, Ghost(text): Ghost<Seq<u8>>)
    requires
        mats.len() == old(layers).len(),
        forall|p: int| 0 <= p < old(layers).len() ==> (#[trigger] old(layers)@[p]).wf(),
        forall|p: int|
            0 <= p < old(layers).len() - 1 ==> (#[trigger] old(layers)@[p]).output_size == old(
                layers,
            )@[p + 1].input_size,
        forall|p: int|
            0 <= p < old(layers).len() ==> (#[trigger] mats@[p]).wf() && mats@[p].nrows == old(
                layers,
            )@[p].weights.nrows && mats@[p].ncols == old(layers)@[p].weights.ncols,
        mats_loaded_ok(text, old(layers)@, mats@),
    ensures
        final(layers).len() == old(layers).len(),
        forall|p: int| 0 <= p < final(layers).len() ==> (#[trigger] final(layers)@[p]).wf(),
        forall|p: int|
            0 <= p < final(layers).len() - 1 ==> (#[trigger] final(layers)@[p]).output_size
                == final(layers)@[p + 1].input_size,
        forall|p: int|
            0 <= p < old(layers).len() ==> #[trigger] reweighted_ok(
                old(layers)@[p],
                final(layers)@[p],
            ),
        loaded_ok(text, old(layers)@, final(layers)@),
{
    let ghost msv: Seq<Matrix> = mats@;
    commit_weights(layers, mats);
    proof {
        lemma_reweighted_wf(old(layers)@, layers@);
        lemma_weights_from_mats(text, old(layers)@, msv, layers@);
    }
}

/// Parses one line per layer into a weight matrix of that layer's/// Parses one line per layer into a weight matrix of that layer's
/// shape. Succeeds exactly when every layer's line serves its shape; on
/// success the matrices hold the leading tokens' values in row-major
/// order, surplus tokens ignored.
#[verifier::rlimit(100)]
#[verifier::spinoff_prover]
fn parse_layer_lines(lines: &Vec<Vec<u8>>, layers: &Vec<Layer>) -> (r: Result<
    Vec<Matrix>,
    LoadError,
>)
    requires
        lines.len() >= layers.len(),
        forall|p: int| 0 <= p < layers.len() ==> (#[trigger] layers@[p]).wf(),
    ensures
        r is Ok <==> forall|p: int|
            0 <= p < layers.len() ==> line_ok(
                (#[trigger] lines@[p])@,
                layers@[p].weights.nrows as nat,
                layers@[p].weights.ncols as nat,
            ),
        r matches Ok(ms) ==> ms.len() == layers.len() && forall|p: int|
            0 <= p < layers.len() ==> (#[trigger] ms@[p]).wf() && ms@[p].nrows
                == layers@[p].weights.nrows && ms@[p].ncols == layers@[p].weights.ncols,
        r matches Ok(ms) ==> forall|p: int, i: int, j: int|
            #![trigger ms@[p]@[i][j]]
            0 <= p < layers.len() && 0 <= i < layers@[p].weights.nrows && 0 <= j < layers@[
                p
            ].weights.ncols ==> ms@[p]@[i][j] == token_value(
                line_tokens((lines@[p])@)[i * layers@[p].weights.ncols + j],
            ),
{
    let n: usize = layers.len();
    let mut mats: Vec<Matrix> = Vec::new();
    let mut l: usize = 0;
    while l < n
        invariant
            n == layers.len(),
            lines.len() >= n,
            forall|p: int| 0 <= p < n ==> (#[trigger] layers@[p]).wf(),
            0 <= l <= n,
            mats.len() == l,
            forall|p: int|
                0 <= p < l ==> line_ok(
                    (#[trigger] lines@[p])@,
                    layers@[p].weights.nrows as nat,
                    layers@[p].weights.ncols as nat,
                ),
            forall|p: int|
                0 <= p < l ==> (#[trigger] mats@[p]).wf() && mats@[p].nrows
                    == layers@[p].weights.nrows && mats@[p].ncols == layers@[p].weights.ncols,
            forall|p: int, i: int, j: int|
                #![trigger mats@[p]@[i][j]]
                0 <= p < l && 0 <= i < layers@[p].weights.nrows && 0 <= j < layers@[
                    p
                ].weights.ncols ==> mats@[p]@[i][j] == token_value(
                    line_tokens((lines@[p])@)[i * layers@[p].weights.ncols + j],
                ),
        decreases n - l,
    {
        let line: &Vec<u8> = &lines[l];
        let nrows: usize = layers[l].weights.nrows;
        let ncols: usize = layers[l].weights.ncols;
        let ghost rc: int = (nrows as int) * (ncols as int);
        if line.len() == 0 || line[line.len() - 1] != 44 {
            proof {
                reveal(line_ok);
            reveal(line_tokens);
                assert(!line_ok(
                    (lines@[l as int])@,
                    layers@[l as int].weights.nrows as nat,
                    layers@[l as int].weights.ncols as nat,
                ));
            }
            return Err(LoadError::UnterminatedLine(l));
        }
        let tokens: Vec<Vec<u8>> = split_tokens(line);
        let ghost toks: Seq<Seq<u8>> = line_tokens((lines@[l as int])@);
        let mut data: Vec<Vec<i64>> = Vec::new();
        let mut idx: usize = 0;
        let mut i: usize = 0;
        while i < nrows
            invariant
                nrows == layers@[l as int].weights.nrows,
                ncols == layers@[l as int].weights.ncols,
                rc == (nrows as int) * (ncols as int),
                0 <= l < n,
                n == layers.len(),
                lines.len() >= n,
                line == &lines[l as int],
                line.len() >= 1,
                (line@)[line@.len() - 1] == 44,
                toks == line_tokens((lines@[l as int])@),
                seq_views(tokens@) == toks,
                tokens.len() == toks.len(),
                0 <= i <= nrows,
                idx == i * ncols,
                idx <= tokens.len(),
                idx <= rc,
                forall|k: int| 0 <= k < idx ==> token_ok(#[trigger] toks[k]),
                data.len() == i,
                forall|p: int| 0 <= p < i ==> (#[trigger] data[p]).len() == ncols,
                forall|p: int, q: int|
                    0 <= p < i && 0 <= q < ncols ==> (#[trigger] data@[p]@[q]) as int
                        == token_value(toks[p * ncols + q]),
            decreases nrows - i,
        {
            let mut row: Vec<i64> = Vec::new();
            let mut j: usize = 0;
            while j < ncols
                invariant
                    nrows == layers@[l as int].weights.nrows,
                    ncols == layers@[l as int].weights.ncols,
                    rc == (nrows as int) * (ncols as int),
                    0 <= l < n,
                    n == layers.len(),
                    lines.len() >= n,
                    toks == line_tokens((lines@[l as int])@),
                    seq_views(tokens@) == toks,
                    tokens.len() == toks.len(),
                    0 <= i < nrows,
                    0 <= j <= ncols,
                    idx == i * ncols + j,
                    idx <= tokens.len(),
                    idx <= rc,
                    forall|k: int| 0 <= k < idx ==> token_ok(#[trigger] toks[k]),
                    row.len() == j,
                    forall|q: int|
                        0 <= q < j ==> (#[trigger] row@[q]) as int == token_value(
                            toks[i * ncols + q],
                        ),
                decreases ncols - j,
            {
                proof {
                    assert(idx < rc) by (nonlinear_arith)
                        requires
                            idx == (i as int) * (ncols as int) + (j as int),
                            rc == (nrows as int) * (ncols as int),
                            0 <= (i as int) < (nrows as int),
                            0 <= (j as int) < (ncols as int),
                    ;
                }
                if idx >= tokens.len() {
                    proof {
                        reveal(line_ok);
                        reveal(line_tokens);
                        assert(toks.len() < rc);
                        assert(!line_ok(
                            (lines@[l as int])@,
                            layers@[l as int].weights.nrows as nat,
                            layers@[l as int].weights.ncols as nat,
                        ));
                    }
                    return Err(LoadError::NotEnoughValues(l));
                }
                proof {
                    assert(toks[idx as int] == (tokens@[idx as int])@);
                }
                let v: i64 = match parse_int(&tokens[idx]) {
                    Some(v) => v,
                    Option::None => {
                        proof {
                            reveal(line_ok);
                        reveal(line_tokens);
                            assert(!token_ok(toks[idx as int]));
                            assert(!line_ok(
                                (lines@[l as int])@,
                                layers@[l as int].weights.nrows as nat,
                                layers@[l as int].weights.ncols as nat,
                            ));
                        }
                        return Err(LoadError::InvalidNumber(l));
                    },
                };
                row.push(v);
                idx = idx + 1;
                j = j + 1;
            }
            data.push(row);
            i = i + 1;
            proof {
                assert((i - 1) * ncols + ncols == i * (ncols as int)) by (nonlinear_arith);
            }
        }
        let m = Matrix { nrows, ncols, data };
        proof {
            reveal(line_ok);
            reveal(line_tokens);
            assert(rc == idx);
            assert(line_ok(
                (lines@[l as int])@,
                layers@[l as int].weights.nrows as nat,
                layers@[l as int].weights.ncols as nat,
            ));
            assert forall|i2: int, j2: int|
                0 <= i2 < nrows && 0 <= j2 < ncols implies m@[i2][j2] == token_value(
                toks[i2 * ncols + j2],
            ) by {
                assert(m@[i2] == crate::linalg::ints(m.data@[i2]@));
                assert(m@[i2][j2] == m.data@[i2]@[j2] as int);
            }
        }
        mats.push(m);
        l = l + 1;
    }
    Ok(mats)
}

/// Replaces each layer's weight matrix with the parsed one of the same
/// shape; everything else is untouched.
#[verifier::rlimit(100)]
#[verifier::spinoff_prover]
fn commit_weights(layers: &mut Vec<Layer>, mats: Vec<Matrix>)
    requires
        mats.len() == old(layers).len(),
        forall|p: int| 0 <= p < old(layers).len() ==> (#[trigger] old(layers)@[p]).wf(),
        forall|p: int|
            0 <= p < old(layers).len() ==> (#[trigger] mats@[p]).wf() && mats@[p].nrows == old(
                layers,
            )@[p].weights.nrows && mats@[p].ncols == old(layers)@[p].weights.ncols,
    ensures
        final(layers).len() == old(layers).len(),
        forall|p: int|
            0 <= p < old(layers).len() ==> #[trigger] reweighted_ok(
                old(layers)@[p],
                final(layers)@[p],
            ),
        forall|p: int| 0 <= p < old(layers).len() ==> (#[trigger] final(layers)@[p]).weights
            == mats@[p],
{
    let ghost ls0: Seq<Layer> = layers@;
    let ghost ms: Seq<Matrix> = mats@;
    let n: usize = layers.len();
    let mut pool: Vec<Matrix> = mats;
    let mut k: usize = 0;
    while k < n
        invariant
            n == layers.len(),
            n == ls0.len(),
            forall|p: int| 0 <= p < n ==> (#[trigger] ls0[p]).wf(),
            0 <= k <= n,
            ms.len() == n,
            pool.len() == n - k,
            pool@ == ms.subrange(0, n - k),
            forall|p: int|
                0 <= p < n - k ==> (#[trigger] pool@[p]).wf() && pool@[p].nrows
                    == ls0[p].weights.nrows && pool@[p].ncols == ls0[p].weights.ncols,
            forall|p: int| 0 <= p < n - k ==> layers@[p] == ls0[p],
            forall|p: int| n - k <= p < n ==> #[trigger] reweighted_ok(ls0[p], layers@[p]),
            forall|p: int| n - k <= p < n ==> (#[trigger] layers@[p]).weights == ms[p],
        decreases n - k,
    {
        let w: Matrix = match pool.pop() {
            Some(w) => w,
            Option::None => {
                proof {
                    assert(false);
                }
                Matrix::new(1, 1)
            },
        };
        // the last parsed line fills the last untouched layer, so the
        // file order is preserved
        let pos: usize = n - 1 - k;
        let updated: Layer = Layer {
            input_size: layers[pos].input_size,
            output_size: layers[pos].output_size,
            weights: w,
            biases: crate::linalg::copy_vec(&layers[pos].biases),
            activation: layers[pos].activation,
            activationdata: crate::linalg::copy_vec(&layers[pos].activationdata),
            activationgrad: crate::linalg::copy_vec(&layers[pos].activationgrad),
        };
        layers.set(pos, updated);
        proof {
            assert(w == ms[pos as int]);
            assert(pool@ =~= ms.subrange(0, n - k - 1));
            assert(reweighted_ok(ls0[pos as int], layers@[pos as int]));
        }
        k = k + 1;
    }
}

/// Layer `b` is layer `a` with its weight matrix replaced by one of the
/// same shape: everything else, the bias vector and both caches
/// included, is unchanged.
pub open spec fn reweighted_ok(a: Layer, b: Layer) -> bool {
    &&& b.input_size == a.input_size
    &&& b.output_size == a.output_size
    &&& b.activation == a.activation
    &&& b.biases@ == a.biases@
    &&& b.activationdata@ == a.activationdata@
    &&& b.activationgrad@ == a.activationgrad@
    &&& b.weights.wf()
    &&& b.weights.nrows == a.weights.nrows
    &&& b.weights.ncols == a.weights.ncols
}

proof fn lemma_reweighted_wf(ls0: Seq<Layer>, cur: Seq<Layer>)
    requires
        ls0.len() == cur.len(),
        forall|p: int| 0 <= p < ls0.len() ==> (#[trigger] ls0[p]).wf(),
        forall|p: int|
            0 <= p < ls0.len() - 1 ==> (#[trigger] ls0[p]).output_size == ls0[p + 1].input_size,
        forall|p: int| 0 <= p < ls0.len() ==> #[trigger] reweighted_ok(ls0[p], cur[p]),
    ensures
        forall|p: int| 0 <= p < cur.len() ==> (#[trigger] cur[p]).wf(),
        forall|p: int|
            0 <= p < cur.len() - 1 ==> (#[trigger] cur[p]).output_size == cur[p + 1].input_size,
{
    assert forall|p: int| 0 <= p < cur.len() implies (#[trigger] cur[p]).wf() by {
        assert(reweighted_ok(ls0[p], cur[p]));
    }
    assert forall|p: int|
        0 <= p < cur.len() - 1 implies (#[trigger] cur[p]).output_size == cur[p + 1].input_size by {
        assert(reweighted_ok(ls0[p], cur[p]));
        assert(reweighted_ok(ls0[p + 1], cur[p + 1]));
    }
}

/// Splits on newlines; the final segment is dropped when the input ends
/// with a newline, as a line-by-line reader would.
fn split_lines(text: &Vec<u8>) -> (r: Vec<Vec<u8>>)
    ensures
        seq_views(r@) == lines_of(text@),
{
    let mut out: Vec<Vec<u8>> = Vec::new();
    let mut cur: Vec<u8> = Vec::new();
    let mut i: usize = 0;
    proof {
        assert(text@.take(0) =~= Seq::<u8>::empty());
        assert(split_at(text@.take(0), 10) =~= seq_views(out@).push(cur@));
    }
    while i < text.len()
        invariant
            0 <= i <= text.len(),
            split_at(text@.take(i as int), 10) == seq_views(out@).push(cur@),
        decreases text.len() - i,
    {
        let ghost pre: Seq<Seq<u8>> = split_at(text@.take(i as int), 10);
        let b: u8 = text[i];
        proof {
            assert(text@.take(i + 1).drop_last() =~= text@.take(i as int));
            assert(text@.take(i + 1).last() == b);
        }
        if b == 10 {
            out.push(cur);
            cur = Vec::new();
            proof {
                assert(seq_views(out@).push(cur@) =~= pre.push(Seq::<u8>::empty()));
            }
        } else {
            cur.push(b);
            proof {
                assert(seq_views(out@).push(cur@) =~= pre.update(
                    pre.len() - 1,
                    pre.last().push(b),
                ));
            }
        }
        i = i + 1;
    }
    proof {
        assert(text@.take(text.len() as int) =~= text@);
    }
    if cur.len() > 0 {
        out.push(cur);
        proof {
            reveal(lines_of);
            assert(seq_views(out@) =~= split_at(text@, 10));
            assert(seq_views(out@) =~= lines_of(text@));
        }
    } else {
        proof {
            reveal(lines_of);
            assert(seq_views(out@) =~= split_at(text@, 10).drop_last());
            assert(seq_views(out@) =~= lines_of(text@));
        }
    }
    out
}

/// Splits a comma-terminated line into its comma-separated tokens,
/// dropping the trailing comma.
fn split_tokens(line: &Vec<u8>) -> (r: Vec<Vec<u8>>)
    requires
        line.len() >= 1,
        line[line.len() - 1] == 44,
    ensures
        seq_views(r@) == line_tokens(line@),
{
    let ghost d: Seq<u8> = line@.drop_last();
    let mut out: Vec<Vec<u8>> = Vec::new();
    let mut cur: Vec<u8> = Vec::new();
    let mut i: usize = 0;
    let stop: usize = line.len() - 1;
    proof {
        assert(d.take(0) =~= Seq::<u8>::empty());
        assert(split_at(d.take(0), 44) =~= seq_views(out@).push(cur@));
    }
    while i < stop
        invariant
            stop < line.len(),
            stop == line.len() - 1,
            d == line@.drop_last(),
            0 <= i <= stop,
            split_at(d.take(i as int), 44) == seq_views(out@).push(cur@),
        decreases stop - i,
    {
        let ghost pre: Seq<Seq<u8>> = split_at(d.take(i as int), 44);
        let b: u8 = line[i];
        proof {
            assert(d[i as int] == line@[i as int]);
            assert(d.take(i + 1).drop_last() =~= d.take(i as int));
            assert(d.take(i + 1).last() == b);
        }
        if b == 44 {
            out.push(cur);
            cur = Vec::new();
            proof {
                assert(seq_views(out@).push(cur@) =~= pre.push(Seq::<u8>::empty()));
            }
        } else {
            cur.push(b);
            proof {
                assert(seq_views(out@).push(cur@) =~= pre.update(
                    pre.len() - 1,
                    pre.last().push(b),
                ));
            }
        }
        i = i + 1;
    }
    out.push(cur);
    proof {
        reveal(line_tokens);
        assert(d.take(stop as int) =~= d);
        assert(seq_views(out@) =~= split_at(d, 44));
    }
    out
}

/// Parses a decimal token, optionally signed, into a raw value; rejects
/// empty tokens, non-digits, and magnitudes beyond `FX_MAX`.
fn parse_int(tok: &Vec<u8>) -> (r: Option<i64>)
    ensures
        r is Some <==> token_ok(tok@),
        r matches Some(v) ==> v as int == token_value(tok@),
{
    if tok.len() == 0 {
        return Option::None;
    }
    let neg: bool = tok[0] == 45;
    let start: usize = if neg {
        1
    } else {
        0
    };
    if start >= tok.len() {
        return Option::None;
    }
    let ghost d: Seq<u8> = tok@.subrange(start as int, tok@.len() as int);
    let mut acc: u64 = 0;
    let mut i: usize = start;
    while i < tok.len()
        invariant
            acc <= FX_MAX as u64,
            start <= i <= tok.len(),
            start < tok.len(),
            start == (if tok@[0] == 45 {
                1int
            } else {
                0int
            }),
            d == tok@.subrange(start as int, tok@.len() as int),
            acc as int == digits_value(d.take(i - start)),
            forall|p: int| 0 <= p < i - start ==> is_digit(#[trigger] d[p]),
        decreases tok.len() - i,
    {
        let b: u8 = tok[i];
        if b < 48 || b > 57 {
            proof {
                assert(d[i - start] == tok@[i as int]);
                assert(!all_digits(d));
                if tok@[0] != 45 {
                    assert(d =~= tok@);
                }
            }
            return Option::None;
        }
        let dg: u64 = (b - 48) as u64;
        let next: u64 = acc * 10 + dg;
        proof {
            assert(d.take(i - start + 1).drop_last() =~= d.take(i - start));
            assert(d.take(i - start + 1).last() == tok@[i as int]);
        }
        if next > FX_MAX as u64 {
            proof {
                lemma_digits_prefix_le(d, i - start + 1);
                if tok@[0] != 45 {
                    assert(d =~= tok@);
                }
            }
            return Option::None;
        }
        acc = next;
        i = i + 1;
    }
    proof {
        assert(d.take(tok@.len() - start) =~= d);
        if !neg {
            assert(d =~= tok@);
        }
    }
    if neg {
        Some(-(acc as i64))
    } else {
        Some(acc as i64)
    }
}

} // verus!
