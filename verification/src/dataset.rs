//! Files of vectors: two counts, then the components of each row, all four bytes wide with
//! the least significant byte first.
use vstd::prelude::*;

verus! {

/// The number in the four bytes from `i` on.
pub open spec fn word_at(b: Seq<u8>, i: int) -> u32 {
    (b[i] + 256 * b[i + 1] + 65536 * b[i + 2] + 16777216 * b[i + 3]) as u32
}

fn word(b: &[u8], i: usize) -> (r: u32)
    requires
        i + 4 <= b@.len(),
    ensures
        r == word_at(b@, i as int),
{
    b[i] as u32 + 256 * b[i + 1] as u32 + 65536 * b[i + 2] as u32 + 16777216 * b[i + 3] as u32
}

/// The vectors of a file, row by row, as the bits of their components.
#[derive(Debug, PartialEq, Eq)]
pub struct Dataset {
    pub n: usize,
    pub dim: usize,
    pub data: Vec<u32>,
}

/// Why a file holds no vectors.
#[derive(Clone, Copy, Debug, PartialEq, Eq, Structural)]
pub enum FbinError {
    /// It ends before its counts or its rows do.
    Short,
    /// It does not hold as many components as its counts say.
    RowCount,
}

pub open spec fn rows_of(b: Seq<u8>) -> int {
    word_at(b, 0) as int
}

pub open spec fn dim_of(b: Seq<u8>) -> int {
    word_at(b, 4) as int
}

/// The first `count` components behind the counts.
pub open spec fn components(b: Seq<u8>, count: nat) -> Seq<u32> {
    Seq::new(count, |i: int| word_at(b, 8 + 4 * i))
}

fn read_components(b: &[u8], count: usize) -> (r: Vec<u32>)
    requires
        8 + 4 * count <= b@.len(),
    ensures
        r@ == components(b@, count as nat),
{
    let size: usize = b.len();
    let mut out: Vec<u32> = Vec::new();
    let mut i: usize = 0;
    while i < count
        invariant
            i <= count,
            8 + 4 * count <= size == b@.len(),
            out@ == components(b@, i as nat),
        decreases count - i,
    {
        out.push(word(b, 8 + 4 * i));
        i = i + 1;
        proof {
            assert(out@ =~= components(b@, i as nat));
        }
    }
    out
}

/// Reads a file that holds exactly the rows that its counts give.
pub fn load_fbin(b: &[u8]) -> (r: Result<Dataset, FbinError>)
    ensures
        match r {
            Ok(d) => b@.len() >= 8 && (b@.len() - 8) / 4 == rows_of(b@) * dim_of(b@) && d.n
                == rows_of(b@) && d.dim == dim_of(b@) && d.data@ == components(
                b@,
                (rows_of(b@) * dim_of(b@)) as nat,
            ),
            Err(FbinError::Short) => b@.len() < 8,
            Err(FbinError::RowCount) => b@.len() >= 8 && (b@.len() - 8) / 4 != rows_of(b@)
                * dim_of(b@),
        },
{
    let size: usize = b.len();
    if size < 8 {
        return Err(FbinError::Short);
    }
    let n: u32 = word(b, 0);
    let dim: u32 = word(b, 4);
    let have: usize = (size - 8) / 4;
    proof {
        assert(0 <= n * dim <= 0xffff_ffff * 0xffff_ffff) by (nonlinear_arith)
            requires
                n <= 0xffff_ffff,
                dim <= 0xffff_ffff,
        ;
    }
    if have as u64 != n as u64 * dim as u64 {
        return Err(FbinError::RowCount);
    }
    let data = read_components(b, have);
    Ok(Dataset { n: n as usize, dim: dim as usize, data })
}

/// Reads the rows that the counts of a file give, and lets anything behind them be.
pub fn load_rows(b: &[u8]) -> (r: Result<Dataset, FbinError>)
    ensures
        match r {
            Ok(d) => b@.len() >= 8 && b@.len() - 8 >= 4 * (rows_of(b@) * dim_of(b@)) && d.n
                == rows_of(b@) && d.dim == dim_of(b@) && d.data@ == components(
                b@,
                (rows_of(b@) * dim_of(b@)) as nat,
            ),
            Err(e) => e == FbinError::Short && (b@.len() < 8 || b@.len() - 8 < 4 * (rows_of(b@)
                * dim_of(b@))),
        },
{
    let size: usize = b.len();
    if size < 8 {
        return Err(FbinError::Short);
    }
    let n: u32 = word(b, 0);
    let dim: u32 = word(b, 4);
    proof {
        assert(0 <= n * dim <= 0xffff_ffff * 0xffff_ffff) by (nonlinear_arith)
            requires
                n <= 0xffff_ffff,
                dim <= 0xffff_ffff,
        ;
    }
    let count: u64 = n as u64 * dim as u64;
    if ((size - 8) as u128) < 4 * count as u128 {
        return Err(FbinError::Short);
    }
    let data = read_components(b, count as usize);
    Ok(Dataset { n: n as usize, dim: dim as usize, data })
}

impl Dataset {
    /// Whether there is a component for each place of each row.
    pub open spec fn well_formed(&self) -> bool {
        self.data@.len() == self.n * self.dim
    }

    /// The components of a row.
    pub fn row(&self, i: usize) -> (r: Vec<u32>)
        requires
            self.well_formed(),
            i < self.n,
        ensures
            r@ == self.data@.subrange(i * self.dim, i * self.dim + self.dim),
    {
        let size: usize = self.data.len();
        proof {
            let a = i as int;
            let n = self.n as int;
            let d = self.dim as int;
            assert(0 <= a * d && a * d + d <= n * d) by (nonlinear_arith)
                requires
                    0 <= a < n,
                    d >= 0,
            ;
        }
        let base: usize = i * self.dim;
        let mut out: Vec<u32> = Vec::new();
        let mut j: usize = 0;
        while j < self.dim
            invariant
                j <= self.dim,
                base + self.dim <= size == self.data@.len(),
                out@ == self.data@.subrange(base as int, base + j),
            decreases self.dim - j,
        {
            out.push(self.data[base + j]);
            j = j + 1;
            proof {
                assert(out@ =~= self.data@.subrange(base as int, base + j));
            }
        }
        out
    }
}

/// A file that is read strictly is read the same way leniently.
pub proof fn law_strict_files_are_lenient(b: Seq<u8>)
    requires
        b.len() >= 8,
        (b.len() - 8) / 4 == rows_of(b) * dim_of(b),
    ensures
        b.len() - 8 >= 4 * (rows_of(b) * dim_of(b)),
{
}

/// A file holds its counts and its components with the least significant byte first: the bytes of
/// each can be had back from it, those of the row count before those of the dimension, and those
/// behind the counts component by component.
pub proof fn law_words_are_little_endian(b: Seq<u8>, count: nat, i: int)
    requires
        0 <= i < count,
        8 + 4 * count <= b.len(),
    ensures
        bytes_of(rows_of(b)) == b.subrange(0, 4),
        bytes_of(dim_of(b)) == b.subrange(4, 8),
        components(b, count).len() == count,
        bytes_of(components(b, count)[i] as int) == b.subrange(8 + 4 * i, 12 + 4 * i),
{
    lemma_word_bytes(b, 0);
    lemma_word_bytes(b, 4);
    lemma_word_bytes(b, 8 + 4 * i);
}

/// The four bytes of a number, the least significant first.
pub open spec fn bytes_of(n: int) -> Seq<u8> {
    seq![
        (n % 256) as u8,
        (n / 256 % 256) as u8,
        (n / 65536 % 256) as u8,
        (n / 16777216 % 256) as u8,
    ]
}

proof fn lemma_word_bytes(b: Seq<u8>, i: int)
    requires
        0 <= i,
        i + 4 <= b.len(),
    ensures
        bytes_of(word_at(b, i) as int) == b.subrange(i, i + 4),
{
    let (p, q, r, t) = (b[i] as int, b[i + 1] as int, b[i + 2] as int, b[i + 3] as int);
    let n = p + 256 * q + 65536 * r + 16777216 * t;
    lemma_digits(p, q, r, t);
    assert(0 <= n <= u32::MAX);
    assert(word_at(b, i) as int == n);
    assert(bytes_of(n)[0] == b[i]);
    assert(bytes_of(n)[1] == b[i + 1]);
    assert(bytes_of(n)[2] == b[i + 2]);
    assert(bytes_of(n)[3] == b[i + 3]);
    assert(bytes_of(n) =~= b.subrange(i, i + 4));
}

proof fn lemma_digits(p: int, q: int, r: int, t: int)
    requires
        0 <= p < 256,
        0 <= q < 256,
        0 <= r < 256,
        0 <= t < 256,
    ensures
        ({
            let n = p + 256 * q + 65536 * r + 16777216 * t;
            n % 256 == p && n / 256 % 256 == q && n / 65536 % 256 == r && n / 16777216 % 256 == t
        }),
{
    let n = p + 256 * q + 65536 * r + 16777216 * t;
    assert(n / 256 == q + 256 * r + 65536 * t);
    assert(n / 65536 == r + 256 * t);
    assert(n / 16777216 == t);
}

} // verus!
