//! Vectors and matrices as the codec sees them: containers of
//! double-precision numbers, each held as the 64 bits of its IEEE 754
//! representation. Two containers are equal when their bits are.
//!
//! A vector travels as its length on 8 bytes, then its elements, 8 bytes
//! each. A matrix travels as its number of rows, its number of columns, then
//! its elements column by column.
//!
//! A decoder takes one element after the other. Where the input ends before
//! the last element does, the failure lies where the first element starts
//! that the input does not hold in full. No element is read, and nothing is
//! set aside for the elements, before the input is known to hold them all.

use vstd::prelude::*;
use crate::error::{fault, is_truncation, DecodeError, DecodeErrorKind, Fault};
use crate::codec::Serialized;
use crate::literals::{lemma_word_round_trip, lemma_word_within};
use crate::wire::{
    be_bytes, be_value, decode_words, encode_words, first_missing_word, lemma_be_bytes_len,
    lemma_be_value_of_bytes, lemma_encode_words_layout, lemma_first_missing_word,
    lemma_pow256_values, lemma_words_canonical, lemma_words_round_trip, push_be, push_words,
    read_words,
};

verus! {

/// A vector of double-precision numbers, each held as its 64 bits.
#[derive(Debug, PartialEq, Eq)]
pub struct Vector(pub Vec<u64>);

impl Clone for Vector {
    fn clone(&self) -> (v: Vector)
        ensures
            v@ == self@,
    {
        Vector(self.0.clone())
    }
}

impl View for Vector {
    type V = Seq<u64>;

    open spec fn view(&self) -> Seq<u64> {
        self.0@
    }
}

impl Vector {
    /// The vector of `len` elements, all of them positive zero.
    pub fn new(len: usize) -> (v: Vector)
        ensures
            v@ == Seq::new(len as nat, |i: int| 0u64),
    {
        let mut elements: Vec<u64> = Vec::new();
        let mut i: usize = 0;
        while i < len
            invariant
                i <= len,
                elements@ == Seq::new(i as nat, |k: int| 0u64),
            decreases len - i,
        {
            elements.push(0);
            i = i + 1;
            assert(elements@ =~= Seq::new(i as nat, |k: int| 0u64));
        }
        Vector(elements)
    }

    /// The number of elements.
    pub fn len(&self) -> (n: usize)
        ensures
            n == self@.len(),
    {
        self.0.len()
    }

    /// Puts `value` at `index`.
    pub fn set(&mut self, index: usize, value: u64)
        requires
            index < old(self)@.len(),
        ensures
            final(self)@ == old(self)@.update(index as int, value),
    {
        self.0.set(index, value);
    }

    /// The element at `index`.
    pub fn at(&self, index: usize) -> (value: u64)
        requires
            index < self@.len(),
        ensures
            value == self@[index as int],
    {
        self.0[index]
    }
}

/// Whether `a * b <= limit`, computed without overflow.
fn product_within(a: usize, b: usize, limit: usize) -> (within: bool)
    ensures
        within == (a * b <= limit),
{
    if a == 0 || b == 0 {
        assert(a * b == 0) by (nonlinear_arith)
            requires
                a == 0 || b == 0,
        ;
        true
    } else {
        let quotient: usize = limit / b;
        assert((a <= quotient) == (a * b <= limit)) by (nonlinear_arith)
            requires
                b > 0,
                quotient == limit / b,
        ;
        a <= quotient
    }
}

/// The cell of column `col` and row `row` lies inside a grid of `rows` by
/// `cols` cells that is stored column by column.
proof fn lemma_cell_index(rows: int, cols: int, col: int, row: int)
    requires
        0 <= col < cols,
        0 <= row < rows,
    ensures
        0 <= col * rows,
        col * rows + row < rows * cols,
{
    lemma_column_span(rows, cols, col);
}

/// Column `col` of a grid of `rows` by `cols` cells that is stored column by
/// column takes up the `rows` cells from `col * rows` on.
proof fn lemma_column_span(rows: int, cols: int, col: int)
    by (nonlinear_arith)
    requires
        0 <= col < cols,
        0 <= rows,
    ensures
        0 <= col * rows,
        col * rows + rows <= rows * cols,
        0 <= rows * cols,
{
}

/// A matrix as specifications see it: its shape and its cells, column by
/// column.
pub struct MatrixView {
    pub rows: nat,
    pub cols: nat,
    pub cells: Seq<u64>,
}

impl MatrixView {
    /// Whether there is one cell for each pair of a column and a row.
    pub open spec fn wf(self) -> bool {
        self.cells.len() == self.rows as int * self.cols as int
    }

    /// The cell of column `col` and row `row`.
    pub open spec fn at(self, col: int, row: int) -> u64 {
        self.cells[col * self.rows + row]
    }
}

/// A matrix of double-precision numbers, each held as its 64 bits. The
/// cells are stored column by column: a column is `rows` cells in a row.
#[derive(Debug, PartialEq, Eq)]
pub struct Matrix {
    rows: usize,
    cols: usize,
    cells: Vec<u64>,
}

impl View for Matrix {
    type V = MatrixView;

    closed spec fn view(&self) -> MatrixView {
        MatrixView { rows: self.rows as nat, cols: self.cols as nat, cells: self.cells@ }
    }
}

impl Clone for Matrix {
    fn clone(&self) -> (m: Matrix)
        ensures
            m@ == self@,
    {
        proof {
            use_type_invariant(self);
        }
        Matrix { rows: self.rows, cols: self.cols, cells: self.cells.clone() }
    }
}

impl Matrix {
    #[verifier::type_invariant]
    spec fn well_formed(self) -> bool {
        self.cells@.len() == self.rows as int * self.cols as int
    }

    /// The matrix of `rows` rows and `columns` columns whose cells are all
    /// positive zero.
    pub fn new(rows: usize, columns: usize) -> (m: Matrix)
        requires
            rows * columns <= usize::MAX,
        ensures
            m@.rows == rows,
            m@.cols == columns,
            m@.cells == Seq::new((rows * columns) as nat, |i: int| 0u64),
            m@.wf(),
    {
        let count: usize = rows * columns;
        let zeros = Vector::new(count);
        Matrix { rows, cols: columns, cells: zeros.0 }
    }

    /// The matrix of `rows` rows and `columns` columns whose cells are
    /// `cells`, column by column; nothing where `cells` has another length
    /// than `rows * columns`.
    pub fn from_cells(rows: usize, columns: usize, cells: Vec<u64>) -> (m: Option<Matrix>)
        ensures
            m is Some <==> cells@.len() == rows * columns,
            m matches Some(matrix) ==> matrix@ == (MatrixView {
                rows: rows as nat,
                cols: columns as nat,
                cells: cells@,
            }),
    {
        if product_within(rows, columns, cells.len()) && product_within(
            rows,
            columns,
            usize::MAX,
        ) && rows * columns == cells.len() {
            Some(Matrix { rows, cols: columns, cells })
        } else {
            None
        }
    }

    /// The matrix of `rows` rows and `columns` columns whose cells are
    /// `cells`, column by column.
    pub fn with_cells(rows: usize, columns: usize, cells: Vec<u64>) -> (m: Matrix)
        requires
            cells@.len() == rows * columns,
        ensures
            m@ == (MatrixView { rows: rows as nat, cols: columns as nat, cells: cells@ }),
            m@.wf(),
    {
        Matrix { rows, cols: columns, cells }
    }

    /// The number of rows.
    pub fn rows(&self) -> (n: usize)
        ensures
            n == self@.rows,
    {
        self.rows
    }

    /// The number of columns.
    pub fn cols(&self) -> (n: usize)
        ensures
            n == self@.cols,
    {
        self.cols
    }

    /// The cells, column by column.
    pub fn data(&self) -> (cells: &Vec<u64>)
        ensures
            cells@ == self@.cells,
            self@.wf(),
    {
        proof {
            use_type_invariant(self);
        }
        &self.cells
    }

    /// The cell of column `col` and row `row`.
    pub fn at(&self, col: usize, row: usize) -> (value: u64)
        requires
            col < self@.cols,
            row < self@.rows,
        ensures
            value == self@.at(col as int, row as int),
            self@.wf(),
    {
        proof {
            use_type_invariant(self);
            lemma_cell_index(self.rows as int, self.cols as int, col as int, row as int);
            assert(self.cells@.len() == self.cells.len());
        }
        self.cells[col * self.rows + row]
    }

    /// The cells of column `col`, from the first row to the last.
    pub fn vector_at(&self, col: usize) -> (column: Vector)
        requires
            col < self@.cols,
        ensures
            column@ == self@.cells.subrange(col * self@.rows, col * self@.rows + self@.rows),
    {
        proof {
            use_type_invariant(self);
            assert(self.cells@.len() == self.cells.len());
            lemma_column_span(self.rows as int, self.cols as int, col as int);
        }
        let mut cells: Vec<u64> = Vec::new();
        let mut row: usize = 0;
        assert(cells@ =~= self.cells@.subrange(col * self.rows, col * self.rows + row));
        while row < self.rows
            invariant
                row <= self.rows,
                col < self.cols,
                self.cells@.len() == self.rows as int * self.cols as int,
                self.cells@.len() <= usize::MAX,
                cells@ == self.cells@.subrange(col * self.rows, col * self.rows + row),
            decreases self.rows - row,
        {
            proof {
                lemma_cell_index(self.rows as int, self.cols as int, col as int, row as int);
            }
            cells.push(self.cells[col * self.rows + row]);
            row = row + 1;
            assert(cells@ =~= self.cells@.subrange(col * self.rows, col * self.rows + row));
        }
        Vector(cells)
    }

    /// Puts `value` into the cell of column `col` and row `row`.
    pub fn set(&mut self, col: usize, row: usize, value: u64)
        requires
            col < old(self)@.cols,
            row < old(self)@.rows,
        ensures
            final(self)@.rows == old(self)@.rows,
            final(self)@.cols == old(self)@.cols,
            final(self)@.cells == old(self)@.cells.update(col * old(self)@.rows + row, value),
            final(self)@.wf(),
    {
        proof {
            use_type_invariant(&*self);
            lemma_cell_index(self.rows as int, self.cols as int, col as int, row as int);
            assert(self.cells@.len() == self.cells.len());
        }
        let index: usize = col * self.rows + row;
        self.cells[index] = value;
    }
}

impl Serialized for Vector {
    open spec fn tag_spec() -> Seq<char> {
        "Vector"@
    }

    open spec fn valid(v: Seq<u64>) -> bool {
        v.len() <= usize::MAX
    }

    open spec fn encode_spec(v: Seq<u64>) -> Seq<u8> {
        be_bytes(v.len(), 8) + encode_words(v)
    }

    open spec fn decode_spec(data: Seq<u8>) -> Result<(Seq<u64>, nat), Fault> {
        match usize::decode_spec(data) {
            Err(f) => Err(f),
            Ok((len, _)) => if data.len() - 8 < 8 * len {
                Err(fault(DecodeErrorKind::Truncated, first_missing_word(8, data.len())))
            } else {
                Ok((decode_words(data.subrange(8, 8 + 8 * len), len as nat), (8 + 8 * len) as nat))
            },
        }
    }

    proof fn lemma_round_trip(v: Seq<u64>, rest: Seq<u8>) {
        let body = encode_words(v);
        let data = Self::encode_spec(v) + rest;
        lemma_pow256_values();
        lemma_be_bytes_len(v.len(), 8);
        lemma_encode_words_layout(v);
        assert(data =~= be_bytes(v.len(), 8) + (body + rest));
        lemma_word_round_trip(v.len(), 8, body + rest);
        assert(data.subrange(8, 8 + 8 * v.len() as int) =~= body + Seq::<u8>::empty());
        lemma_words_round_trip(v, Seq::<u8>::empty());
    }

    proof fn lemma_decode_within(data: Seq<u8>) {
        lemma_pow256_values();
        lemma_word_within(data, 8);
        if data.len() >= 8 {
            lemma_first_missing_word(8, data.len());
        }
        match Self::decode_spec(data) {
            Ok((v, n)) => {
                let len = v.len();
                let body = data.subrange(8, 8 + 8 * len as int);
                lemma_words_canonical(body, len);
                assert(body.subrange(0, 8 * len as int) =~= body);
                assert(Self::encode_spec(v) =~= data.subrange(0, n as int));
            },
            Err(f) => {},
        }
    }

    proof fn lemma_cut_is_truncated(v: Seq<u64>, cut: int) {
        let data = Self::encode_spec(v).subrange(0, cut);
        lemma_pow256_values();
        lemma_be_bytes_len(v.len(), 8);
        lemma_encode_words_layout(v);
        if cut >= 8 {
            assert(data.subrange(0, 8) =~= be_bytes(v.len(), 8));
            lemma_be_value_of_bytes(v.len(), 8);
        }
    }

    fn serialize_binary(&self) -> (data: Vec<u8>) {
        let mut data: Vec<u8> = Vec::new();
        push_be(&mut data, self.0.len() as u64, 8);
        push_words(&mut data, &self.0);
        data
    }

    fn deserialize_binary(data: &[u8]) -> (r: Result<(Self, usize), DecodeError>) {
        match usize::deserialize_binary(data) {
            Err(e) => Err(e),
            Ok((len, _)) => {
                let held: usize = (data.len() - 8) / 8;
                proof {
                    lemma_first_missing_word(8, data@.len());
                }
                if held < len {
                    Err(DecodeError::new(DecodeErrorKind::Truncated, 8 + 8 * held))
                } else {
                    let elements: Vec<u64> = read_words(data, 8, len);
                    Ok((Vector(elements), 8 + 8 * len))
                }
            },
        }
    }

    fn tag() -> (t: &'static str) {
        "Vector"
    }
}

/// What reading a matrix from the front of `data` gives.
pub open spec fn decode_matrix(data: Seq<u8>) -> Result<(MatrixView, nat), Fault> {
    match usize::decode_spec(data) {
        Err(f) => Err(f),
        Ok((rows, _)) => match usize::decode_spec(data.subrange(8, data.len() as int)) {
            Err(f) => Err(f.shifted(8)),
            Ok((cols, _)) => if data.len() - 16 < 8 * (rows * cols) {
                Err(fault(DecodeErrorKind::Truncated, first_missing_word(16, data.len())))
            } else {
                Ok(
                    (
                        MatrixView {
                            rows: rows as nat,
                            cols: cols as nat,
                            cells: decode_words(
                                data.subrange(16, 16 + 8 * (rows * cols)),
                                (rows * cols) as nat,
                            ),
                        },
                        (16 + 8 * (rows * cols)) as nat,
                    ),
                )
            },
        },
    }
}

/// The bytes of the matrix `m`: rows, columns, then the cells column by
/// column.
pub open spec fn encode_matrix(m: MatrixView) -> Seq<u8> {
    be_bytes(m.rows, 8) + be_bytes(m.cols, 8) + encode_words(m.cells)
}

impl Serialized for Matrix {
    open spec fn tag_spec() -> Seq<char> {
        "Matrix"@
    }

    open spec fn valid(v: MatrixView) -> bool {
        &&& v.wf()
        &&& v.rows <= usize::MAX
        &&& v.cols <= usize::MAX
    }

    open spec fn encode_spec(v: MatrixView) -> Seq<u8> {
        encode_matrix(v)
    }

    open spec fn decode_spec(data: Seq<u8>) -> Result<(MatrixView, nat), Fault> {
        decode_matrix(data)
    }

    proof fn lemma_round_trip(v: MatrixView, rest: Seq<u8>) {
        let body = encode_words(v.cells);
        let data = encode_matrix(v) + rest;
        let after_rows = be_bytes(v.cols, 8) + (body + rest);
        lemma_pow256_values();
        lemma_be_bytes_len(v.rows, 8);
        lemma_be_bytes_len(v.cols, 8);
        lemma_encode_words_layout(v.cells);
        assert(data =~= be_bytes(v.rows, 8) + after_rows);
        lemma_word_round_trip(v.rows, 8, after_rows);
        assert(data.subrange(8, data.len() as int) =~= after_rows);
        lemma_word_round_trip(v.cols, 8, body + rest);
        assert(data.subrange(16, 16 + 8 * (v.rows * v.cols) as int) =~= body + Seq::<u8>::empty());
        lemma_words_round_trip(v.cells, Seq::<u8>::empty());
    }

    proof fn lemma_decode_within(data: Seq<u8>) {
        lemma_pow256_values();
        lemma_word_within(data, 8);
        lemma_word_within(data.subrange(8, data.len() as int), 8);
        if data.len() >= 16 {
            lemma_first_missing_word(16, data.len());
        }
        match decode_matrix(data) {
            Ok((v, n)) => {
                assert(0 <= v.rows * v.cols) by (nonlinear_arith);
                let count = v.cells.len();
                let body = data.subrange(16, 16 + 8 * count as int);
                lemma_words_canonical(body, count);
                assert(body.subrange(0, 8 * count as int) =~= body);
                assert(data.subrange(8, data.len() as int).subrange(0, 8) =~= data.subrange(
                    8,
                    16,
                ));
                assert(encode_matrix(v) =~= data.subrange(0, n as int));
            },
            Err(f) => {},
        }
    }

    proof fn lemma_cut_is_truncated(v: MatrixView, cut: int) {
        let data = encode_matrix(v).subrange(0, cut);
        lemma_pow256_values();
        lemma_be_bytes_len(v.rows, 8);
        lemma_be_bytes_len(v.cols, 8);
        lemma_encode_words_layout(v.cells);
        if cut >= 8 {
            assert(data.subrange(0, 8) =~= be_bytes(v.rows, 8));
            lemma_be_value_of_bytes(v.rows, 8);
            let after = data.subrange(8, data.len() as int);
            if cut >= 16 {
                assert(after.subrange(0, 8) =~= be_bytes(v.cols, 8));
                lemma_be_value_of_bytes(v.cols, 8);
            }
        }
    }

    fn serialize_binary(&self) -> (data: Vec<u8>) {
        proof {
            use_type_invariant(self);
            assert(self.cells@.len() == self.cells.len());
        }
        let mut data: Vec<u8> = Vec::new();
        push_be(&mut data, self.rows as u64, 8);
        push_be(&mut data, self.cols as u64, 8);
        push_words(&mut data, &self.cells);
        data
    }

    fn deserialize_binary(data: &[u8]) -> (r: Result<(Self, usize), DecodeError>) {
        match usize::deserialize_binary(data) {
            Err(e) => Err(e),
            Ok((rows, _)) => {
                let after_rows: &[u8] = vstd::slice::slice_subrange(data, 8, data.len());
                match usize::deserialize_binary(after_rows) {
                    Err(e) => Err(e.shifted(8)),
                    Ok((cols, _)) => {
                        let room: usize = (data.len() - 16) / 8;
                        proof {
                            lemma_first_missing_word(16, data@.len());
                        }
                        if !product_within(rows, cols, room) {
                            Err(DecodeError::new(DecodeErrorKind::Truncated, 16 + 8 * room))
                        } else {
                            let count: usize = rows * cols;
                            let cells: Vec<u64> = read_words(data, 16, count);
                            Ok((Matrix { rows, cols, cells }, 16 + 8 * count))
                        }
                    },
                }
            },
        }
    }

    fn tag() -> (t: &'static str) {
        "Matrix"
    }
}

/// Column-major layout: in the encoding of a matrix of `R` rows, the 8
/// bytes at offset `16 + 8 * (col * R + row)` spell the cell of row `row`
/// and column `col`.
pub proof fn lemma_column_major(m: MatrixView, col: int, row: int)
    requires
        m.wf(),
        0 <= col < m.cols,
        0 <= row < m.rows,
    ensures
        16 + 8 * (col * m.rows + row) + 8 <= encode_matrix(m).len(),
        be_value(
            encode_matrix(m).subrange(
                16 + 8 * (col * m.rows + row),
                16 + 8 * (col * m.rows + row) + 8,
            ),
        ) == m.at(col, row),
{
    let index = col * m.rows + row;
    lemma_cell_index(m.rows as int, m.cols as int, col, row);
    lemma_be_bytes_len(m.rows, 8);
    lemma_be_bytes_len(m.cols, 8);
    lemma_encode_words_layout(m.cells);
    lemma_pow256_values();
    assert(encode_matrix(m).subrange(16 + 8 * index, 16 + 8 * index + 8) =~= encode_words(
        m.cells,
    ).subrange(8 * index, 8 * index + 8));
    lemma_be_value_of_bytes(m.cells[index] as nat, 8);
}

} // verus!
