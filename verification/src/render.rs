use crate::error::Error;
use vstd::prelude::*;

verus! {

/// A contiguous range of pixel indices: `length` of them from `start` on.
/// Pixel `n` of an image is the one in column `n % width` of row
/// `n / width`.
#[derive(Clone, Copy, Debug, PartialEq, Eq, Structural)]
pub struct Chunk {
    pub start: u64,
    pub length: u64,
}

/// The number of pixels of an image of `width` by `height`.
pub open spec fn pixel_count(width: u32, height: u32) -> nat {
    (width * height) as nat
}

/// The `i`-th of the `workers` ranges that `total` pixels are split into
/// where each worker gets at least one: all are `total / workers` long but
/// the last, which takes the remainder too.
pub open spec fn chunk_at(total: nat, workers: nat, i: int) -> Chunk
    recommends
        0 < workers <= total <= u64::MAX,
        0 <= i < workers,
{
    let size = total / workers;
    Chunk {
        start: (i * size) as u64,
        length: if i == workers - 1 {
            (total - i * size) as u64
        } else {
            size as u64
        },
    }
}

/// The ranges that `total` pixels are split into for `workers` workers: one
/// range each, in order; a single range with every pixel where there are
/// fewer pixels than workers.
pub open spec fn chunks_of(total: nat, workers: nat) -> Seq<Chunk>
    recommends
        0 < workers,
        total <= u64::MAX,
{
    if total / workers == 0 {
        seq![Chunk { start: 0, length: total as u64 }]
    } else {
        Seq::new(workers, |i: int| chunk_at(total, workers, i))
    }
}

/// Whether the ranges follow one another from pixel 0 up to `total`.
pub open spec fn tiles(chunks: Seq<Chunk>, total: nat) -> bool {
    &&& chunks.len() > 0
    &&& chunks[0].start == 0
    &&& forall|i: int|
        0 <= i < chunks.len() - 1 ==> (#[trigger] chunks[i]).start + chunks[i].length
            == chunks[i + 1].start
    &&& chunks.last().start + chunks.last().length == total
}

/// `first` with `second` after it: their pixels in that order, or the first error.
pub open spec fn appended(first: Result<Seq<u8>, Error>, second: Result<Seq<u8>, Error>) -> Result<
    Seq<u8>,
    Error,
> {
    match first {
        Ok(before) => match second {
            Ok(after) => Ok(before + after),
            Err(e) => Err(e),
        },
        Err(e) => Err(e),
    }
}

/// The pieces put together in order, or the first error among them.
pub open spec fn joined(pieces: Seq<Result<Seq<u8>, Error>>) -> Result<Seq<u8>, Error>
    decreases pieces.len(),
{
    if pieces.len() == 0 {
        Ok(Seq::empty())
    } else {
        appended(joined(pieces.drop_last()), pieces.last())
    }
}

/// What a piece is in contracts.
pub open spec fn piece_view(piece: Result<Vec<u8>, Error>) -> Result<Seq<u8>, Error> {
    match piece {
        Ok(pixels) => Ok(pixels@),
        Err(e) => Err(e),
    }
}

/// What a sequence of pieces is in contracts.
pub open spec fn piece_views(pieces: Seq<Result<Vec<u8>, Error>>) -> Seq<Result<Seq<u8>, Error>> {
    Seq::new(pieces.len(), |i: int| piece_view(pieces[i]))
}

/// The outcome of a single pixel as a piece of its own.
pub open spec fn pixel_piece(outcome: Result<u8, Error>) -> Result<Seq<u8>, Error> {
    match outcome {
        Ok(pixel) => Ok(seq![pixel]),
        Err(e) => Err(e),
    }
}

/// The outcomes of the `length` pixels from `start` on, each a piece of its
/// own, where `shade` gives the outcome of each pixel.
pub open spec fn pixel_pieces(
    shade: spec_fn(int) -> Result<u8, Error>,
    start: int,
    length: nat,
) -> Seq<Result<Seq<u8>, Error>> {
    Seq::new(length, |k: int| pixel_piece(shade(start + k)))
}

/// What a worker that goes through the pixels of `chunk` in order yields:
/// their shades, or the first error among their outcomes.
pub open spec fn worked(shade: spec_fn(int) -> Result<u8, Error>, chunk: Chunk) -> Result<
    Seq<u8>,
    Error,
> {
    joined(pixel_pieces(shade, chunk.start as int, chunk.length as nat))
}

/// What the workers yield, one piece for each of `chunks`, in order.
pub open spec fn worked_all(
    shade: spec_fn(int) -> Result<u8, Error>,
    chunks: Seq<Chunk>,
) -> Seq<Result<Seq<u8>, Error>> {
    Seq::new(chunks.len(), |i: int| worked(shade, chunks[i]))
}

proof fn lemma_product_bound(i: nat, workers: nat, total: nat)
    requires
        i < workers,
    ensures
        i * (total / workers) + total / workers <= total,
{
    let size = total / workers;
    assert(workers * size <= total) by (nonlinear_arith)
        requires
            size == total / workers,
            workers > 0,
    ;
    assert((i + 1) * size <= workers * size) by (nonlinear_arith)
        requires
            i + 1 <= workers,
            size >= 0,
    ;
    assert((i + 1) * size == i * size + size) by (nonlinear_arith);
}

/// The ranges for any number of workers follow one another from pixel 0 up
/// to the last pixel: each pixel lies in exactly one of them.
pub proof fn lemma_chunks_tile(total: nat, workers: nat)
    requires
        0 < workers,
        total <= u64::MAX,
    ensures
        tiles(chunks_of(total, workers), total),
{
    let chunks = chunks_of(total, workers);
    let size = total / workers;
    if size != 0 {
        assert forall|i: int| 0 <= i < chunks.len() - 1 implies (#[trigger] chunks[i]).start
            + chunks[i].length == chunks[i + 1].start by {
            lemma_product_bound(i as nat, workers, total);
            lemma_product_bound((i + 1) as nat, workers, total);
            assert((i + 1) * size == i * size + size) by (nonlinear_arith);
        }
        lemma_product_bound((workers - 1) as nat, workers, total);
        assert(0 * size == 0);
    }
}

/// Splits `total` pixels into one range for each of `workers` workers, the
/// remainder going to the last; into a single range where there are fewer
/// pixels than workers.
pub fn partition(total: u64, workers: u64) -> (chunks: Vec<Chunk>)
    requires
        workers > 0,
    ensures
        chunks@ == chunks_of(total as nat, workers as nat),
        tiles(chunks@, total as nat),
{
    let size = total / workers;
    let mut chunks: Vec<Chunk> = Vec::new();
    proof {
        lemma_chunks_tile(total as nat, workers as nat);
    }
    if size == 0 {
        chunks.push(Chunk { start: 0, length: total });
        assert(chunks@ =~= chunks_of(total as nat, workers as nat));
        return chunks;
    }
    let mut i: u64 = 0;
    while i < workers
        invariant
            workers > 0,
            size == total / workers,
            size > 0,
            i <= workers,
            chunks@ == Seq::new(i as nat, |k: int| chunk_at(total as nat, workers as nat, k)),
        decreases workers - i,
    {
        proof {
            lemma_product_bound(i as nat, workers as nat, total as nat);
        }
        let start = i * size;
        let length = if i == workers - 1 {
            total - start
        } else {
            size
        };
        chunks.push(Chunk { start, length });
        i += 1;
        assert(chunks@ =~= Seq::new(
            i as nat,
            |k: int| chunk_at(total as nat, workers as nat, k),
        ));
    }
    chunks
}

/// The number of workers that a render is shared among: the number of
/// processors available to this process, as `num_cpus::get` reports it. The
/// documentation of that function gives its result as at least 1; nothing
/// else is claimed of it.
#[verifier::external_body]
fn worker_count() -> (workers: usize)
    ensures
        workers >= 1,
{
    num_cpus::get()
}

/// Splits the pixels of an image of `width` by `height` among the workers
/// that this machine offers. However many those are, the ranges follow one
/// another from pixel 0 up to the last pixel.
pub fn plan(width: u32, height: u32) -> (chunks: Vec<Chunk>)
    ensures
        exists|workers: nat|
            0 < workers && chunks@ == #[trigger] chunks_of(pixel_count(width, height), workers),
        tiles(chunks@, pixel_count(width, height)),
{
    assert(width * height <= u64::MAX) by (nonlinear_arith)
        requires
            width <= u32::MAX,
            height <= u32::MAX,
    ;
    let total = width as u64 * height as u64;
    let workers = worker_count();
    let chunks = partition(total, workers as u64);
    assert(chunks@ == chunks_of(pixel_count(width, height), workers as nat));
    chunks
}

/// The column and the row of pixel `index`, in that order.
pub fn coordinates(index: u64, width: u32, height: u32) -> (at: (u32, u32))
    requires
        index < pixel_count(width, height),
    ensures
        at.0 == index % (width as u64),
        at.1 == index / (width as u64),
        at.0 < width,
        at.1 < height,
        at.1 * width + at.0 == index,
{
    assert(width > 0) by (nonlinear_arith)
        requires
            0 <= index < width * height,
    ;
    let wide = width as u64;
    let column = index % wide;
    let row = index / wide;
    assert(row < height) by (nonlinear_arith)
        requires
            row == index / wide,
            index < wide * height,
            wide > 0,
    ;
    assert(row * wide + column == index) by (nonlinear_arith)
        requires
            row == index / wide,
            column == index % wide,
            wide > 0,
    ;
    (column as u32, row as u32)
}

/// Puts the pieces together in order, or gives the first error among them.
pub fn assemble(pieces: Vec<Result<Vec<u8>, Error>>) -> (r: Result<Vec<u8>, Error>)
    ensures
        piece_view(r) == joined(piece_views(pieces@)),
{
    let mut pixels: Vec<u8> = Vec::new();
    let mut i: usize = 0;
    assert(piece_views(pieces@).take(0) =~= Seq::empty());
    while i < pieces.len()
        invariant
            i <= pieces@.len(),
            joined(piece_views(pieces@).take(i as int)) == Ok::<Seq<u8>, Error>(pixels@),
        decreases pieces@.len() - i,
    {
        let ghost all = piece_views(pieces@);
        let ghost before = pixels@;
        assert(all.take(i + 1).drop_last() =~= all.take(i as int));
        assert(all.take(i + 1).last() == piece_view(pieces@[i as int]));
        match &pieces[i] {
            Ok(piece) => {
                let mut k: usize = 0;
                while k < piece.len()
                    invariant
                        k <= piece@.len(),
                        pixels@ == before + piece@.take(k as int),
                    decreases piece@.len() - k,
                {
                    pixels.push(piece[k]);
                    k += 1;
                    assert(pixels@ =~= before + piece@.take(k as int));
                }
                assert(piece@.take(k as int) =~= piece@);
            },
            Err(e) => {
                proof {
                    lemma_joined_error(all, i as int);
                }
                return Err(*e);
            },
        }
        i += 1;
    }
    assert(piece_views(pieces@).take(i as int) =~= piece_views(pieces@));
    Ok(pixels)
}

/// Where the pieces before the `i`-th join and the `i`-th is an error, that
/// error is what all of them join to.
proof fn lemma_joined_error(pieces: Seq<Result<Seq<u8>, Error>>, i: int)
    requires
        0 <= i < pieces.len(),
        joined(pieces.take(i)) is Ok,
        pieces[i] is Err,
    ensures
        joined(pieces) == Err::<Seq<u8>, Error>(pieces[i]->Err_0),
    decreases pieces.len(),
{
    if i == pieces.len() - 1 {
        assert(pieces.drop_last() =~= pieces.take(i));
    } else {
        assert(pieces.drop_last().take(i) =~= pieces.take(i));
        lemma_joined_error(pieces.drop_last(), i);
    }
}

/// Whether `pixels` are the shades of the `length` pixels from `start` on,
/// in order, none of which fails.
pub open spec fn shades_of(
    shade: spec_fn(int) -> Result<u8, Error>,
    start: int,
    length: nat,
    pixels: Seq<u8>,
) -> bool {
    &&& pixels.len() == length
    &&& forall|k: int| 0 <= k < length ==> shade(start + k) == Ok::<u8, Error>(#[trigger] pixels[k])
}

/// Whether `e` is the error of the first pixel, of the `length` from
/// `start` on, that fails.
pub open spec fn first_failure(
    shade: spec_fn(int) -> Result<u8, Error>,
    start: int,
    length: nat,
    e: Error,
) -> bool {
    exists|k: int|
        0 <= k < length && #[trigger] shade(start + k) == Err::<u8, Error>(e) && forall|j: int|
            0 <= j < k ==> (#[trigger] shade(start + j)) is Ok
}

proof fn lemma_pixel_pieces(shade: spec_fn(int) -> Result<u8, Error>, start: int, length: nat)
    ensures
        match joined(pixel_pieces(shade, start, length)) {
            Ok(pixels) => shades_of(shade, start, length, pixels),
            Err(e) => first_failure(shade, start, length, e),
        },
    decreases length,
{
    if length > 0 {
        let pieces = pixel_pieces(shade, start, length);
        let before = (length - 1) as nat;
        assert(pieces.drop_last() =~= pixel_pieces(shade, start, before));
        assert(pieces.last() == pixel_piece(shade(start + before)));
        lemma_pixel_pieces(shade, start, before);
        match joined(pieces.drop_last()) {
            Ok(earlier) => {
                match shade(start + before) {
                    Ok(pixel) => {
                        let pixels = earlier + seq![pixel];
                        assert forall|k: int| 0 <= k < length implies shade(start + k) == Ok::<
                            u8,
                            Error,
                        >(#[trigger] pixels[k]) by {
                            if k < before {
                                assert(pixels[k] == earlier[k]);
                            }
                        }
                    },
                    Err(e) => {
                        assert forall|j: int| 0 <= j < before implies (#[trigger] shade(
                            start + j,
                        )) is Ok by {
                            assert(shade(start + j) == Ok::<u8, Error>(earlier[j]));
                        }
                        assert(shade(start + before) == Err::<u8, Error>(e));
                    },
                }
            },
            Err(e) => {
                let k = choose|k: int|
                    0 <= k < before && #[trigger] shade(start + k) == Err::<u8, Error>(e)
                        && forall|j: int| 0 <= j < k ==> (#[trigger] shade(start + j)) is Ok;
                assert(0 <= k < length && shade(start + k) == Err::<u8, Error>(e));
            },
        }
    }
}

/// What a worker yields for a range is one shade for each of its pixels, in
/// the order of the pixels, or the error of the first pixel that fails.
pub proof fn lemma_worked(shade: spec_fn(int) -> Result<u8, Error>, chunk: Chunk)
    ensures
        match worked(shade, chunk) {
            Ok(pixels) => shades_of(shade, chunk.start as int, chunk.length as nat, pixels),
            Err(e) => first_failure(shade, chunk.start as int, chunk.length as nat, e),
        },
{
    lemma_pixel_pieces(shade, chunk.start as int, chunk.length as nat);
}

/// Joining two runs of pieces one after the other is joining each and
/// putting the results together.
pub proof fn lemma_joined_concat(
    first: Seq<Result<Seq<u8>, Error>>,
    second: Seq<Result<Seq<u8>, Error>>,
)
    ensures
        joined(first + second) == appended(joined(first), joined(second)),
    decreases second.len(),
{
    if second.len() == 0 {
        assert(first + second =~= first);
        if let Ok(before) = joined(first) {
            assert(before + Seq::<u8>::empty() =~= before);
        }
    } else {
        let all = first + second;
        assert(all.drop_last() =~= first + second.drop_last());
        assert(all.last() == second.last());
        lemma_joined_concat(first, second.drop_last());
        if let (Ok(a), Ok(b), Ok(c)) = (joined(first), joined(second.drop_last()), second.last()) {
            assert((a + b) + c =~= a + (b + c));
        }
    }
}

/// Joining the pieces that the workers yield for the first `n` of ranges
/// that follow one another from pixel 0 is going through those pixels in
/// one run.
proof fn lemma_worked_prefix(shade: spec_fn(int) -> Result<u8, Error>, chunks: Seq<Chunk>, n: int)
    requires
        0 < n <= chunks.len(),
        chunks[0].start == 0,
        forall|i: int|
            0 <= i < chunks.len() - 1 ==> (#[trigger] chunks[i]).start + chunks[i].length
                == chunks[i + 1].start,
    ensures
        joined(worked_all(shade, chunks).take(n)) == joined(
            pixel_pieces(shade, 0, (chunks[n - 1].start + chunks[n - 1].length) as nat),
        ),
    decreases n,
{
    let pieces = worked_all(shade, chunks).take(n);
    let last = chunks[n - 1];
    let run = pixel_pieces(shade, last.start as int, last.length as nat);
    assert(pieces.last() == joined(run));
    if n == 1 {
        assert(pieces.drop_last() =~= Seq::empty());
        lemma_joined_concat(Seq::empty(), run);
        assert(Seq::<Result<Seq<u8>, Error>>::empty() + run =~= run);
    } else {
        lemma_worked_prefix(shade, chunks, n - 1);
        assert(pieces.drop_last() =~= worked_all(shade, chunks).take(n - 1));
        let before = pixel_pieces(shade, 0, last.start as nat);
        assert(chunks[n - 2].start + chunks[n - 2].length == last.start);
        lemma_joined_concat(before, run);
        assert(before + run =~= pixel_pieces(shade, 0, (last.start + last.length) as nat));
    }
}

/// A render does not depend on how many workers share it. Whatever the
/// outcome of each pixel is, joining what the workers yield for their
/// ranges gives what a single worker yields for the whole image: the same
/// pixels in the same order, or the same first error.
pub proof fn lemma_render_is_independent_of_workers(
    shade: spec_fn(int) -> Result<u8, Error>,
    total: nat,
    workers: nat,
)
    requires
        0 < workers,
        total <= u64::MAX,
    ensures
        joined(worked_all(shade, chunks_of(total, workers))) == worked(
            shade,
            Chunk { start: 0, length: total as u64 },
        ),
{
    let chunks = chunks_of(total, workers);
    lemma_chunks_tile(total, workers);
    lemma_worked_prefix(shade, chunks, chunks.len() as int);
    assert(worked_all(shade, chunks).take(chunks.len() as int) =~= worked_all(shade, chunks));
}

} // verus!
